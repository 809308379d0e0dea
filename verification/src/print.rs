//! Rendering a process tree as a compact, multi-branch text diagram with
//! box-drawing connectors.

use vstd::prelude::*;
use vstd::string::StrSliceExecFns;
use vstd::string::StringExecFns;
use crate::proc::Process;
use crate::text::char_count;
use crate::text::push_u32;
use crate::text::spec_digit_char;
use crate::text::spec_u32_digits;

verus! {

/// One piece of accumulated left-hand indentation: a run of blanks as wide
/// as an ancestor's label, or the vertical connector of an open branch.
#[derive(Copy, Clone, Debug)]
pub enum PrefixFragment {
    BlankSpace(usize),
    VerticalLine,
}

/// The label a node is shown under: the synthetic root (pid 0) shows its
/// marker name verbatim; any other node shows its name, with `(pid)` added
/// when identifiers are requested.
pub open spec fn spec_display_name(p: Process, show_pgids: bool) -> Seq<char> {
    if p.stat.pid == 0 {
        p.name@
    } else if show_pgids {
        p.name@ + "("@ + spec_u32_digits(p.stat.pid as int) + ")"@
    } else {
        p.name@
    }
}

pub open spec fn spec_spaces(n: nat) -> Seq<char> {
    Seq::new(n, |i: int| ' ')
}

pub open spec fn spec_fragment_str(f: PrefixFragment) -> Seq<char> {
    match f {
        PrefixFragment::BlankSpace(w) => spec_spaces(w as nat),
        PrefixFragment::VerticalLine => seq!['│'],
    }
}

/// The indentation drawn before a node that starts a new line: the
/// fragments accumulated along the path from the root, concatenated.
pub open spec fn spec_prefix_str(fs: Seq<PrefixFragment>) -> Seq<char>
    decreases fs.len(),
{
    if fs.len() == 0 {
        Seq::empty()
    } else {
        spec_prefix_str(fs.drop_last()) + spec_fragment_str(fs.last())
    }
}

/// What a node's own label contributes to the output. At depth 0 the bare
/// display name; a first child continues its parent's line behind `───`
/// (an only child) or `─┬─` (the first of several); a later child starts a
/// new line with the accumulated prefix and a `├─` or, for the last
/// sibling, a `└─` branch.
pub open spec fn spec_label(
    p: Process,
    show_pgids: bool,
    depth: int,
    total: int,
    index: int,
    fs: Seq<PrefixFragment>,
) -> Seq<char> {
    let name = spec_display_name(p, show_pgids);
    if depth == 0 {
        name
    } else if index == 0 {
        if total == 1 {
            "───"@ + name
        } else {
            "─┬─"@ + name
        }
    } else {
        "\n"@ + spec_prefix_str(fs) + (if index + 1 == total {
            "└"@
        } else {
            "├"@
        }) + "─"@ + name
    }
}

/// The fragments a node passes down to its children: its own label's width
/// plus the width of its connector, and an open vertical bar when later
/// siblings still have to be attached below it.
pub open spec fn spec_child_frags(
    p: Process,
    show_pgids: bool,
    depth: int,
    total: int,
    fs: Seq<PrefixFragment>,
) -> Seq<PrefixFragment> {
    let w = spec_display_name(p, show_pgids).len();
    if depth == 0 {
        fs.push(PrefixFragment::BlankSpace((w + 1) as usize))
    } else if total == 1 {
        fs.push(PrefixFragment::BlankSpace((w + 3) as usize))
    } else {
        fs.push(PrefixFragment::VerticalLine).push(PrefixFragment::BlankSpace((w + 2) as usize))
    }
}

/// The full text of the subtree at `p`: the node's label, then each child
/// in order. Only whether `depth` is 0 matters to the output, so children
/// are rendered at depth 1.
pub open spec fn spec_render(
    p: Process,
    show_pgids: bool,
    depth: int,
    total: int,
    index: int,
    fs: Seq<PrefixFragment>,
) -> Seq<char>
    decreases p, 1int, 0int,
{
    spec_label(p, show_pgids, depth, total, index, fs) + spec_render_kids(
        p,
        0,
        show_pgids,
        spec_child_frags(p, show_pgids, depth, total, fs),
    )
}

pub open spec fn spec_render_kids(
    p: Process,
    k: int,
    show_pgids: bool,
    fs: Seq<PrefixFragment>,
) -> Seq<char>
    decreases p, 0int, p.children@.len() - k,
{
    if k < 0 || k >= p.children@.len() {
        Seq::empty()
    } else {
        spec_render(p.children@[k], show_pgids, 1, p.children@.len() as int, k, fs)
            + spec_render_kids(p, k + 1, show_pgids, fs)
    }
}

/// The display name of a node, as one string.
pub fn get_name(process: &Process, show_pgids: bool) -> (r: String)
    ensures
        r@ == spec_display_name(*process, show_pgids),
{
    if process.pid() == 0 {
        return process.name.clone();
    }
    if show_pgids {
        let mut s = process.name.clone();
        s.append("(");
        push_u32(&mut s, process.pid());
        s.append(")");
        proof {
            assert(s@ =~= spec_display_name(*process, show_pgids));
        }
        s
    } else {
        process.name.clone()
    }
}

/// The accumulated indentation, as one string: blanks become runs of
/// spaces, vertical fragments become the `│` glyph.
pub fn generate_prefix(prefixs: &Vec<PrefixFragment>) -> (r: String)
    ensures
        r@ == spec_prefix_str(prefixs@),
{
    let mut ret = String::new();
    let mut i: usize = 0;
    proof {
        assert(prefixs@.take(0) =~= Seq::<PrefixFragment>::empty());
    }
    while i < prefixs.len()
        invariant
            0 <= i <= prefixs@.len(),
            ret@ == spec_prefix_str(prefixs@.take(i as int)),
        decreases prefixs@.len() - i,
    {
        let ghost prev = ret@;
        proof {
            assert(prefixs@.take(i + 1).drop_last() =~= prefixs@.take(i as int));
            assert(prefixs@.take(i + 1).last() == prefixs@[i as int]);
        }
        match prefixs[i] {
            PrefixFragment::BlankSpace(w) => {
                let mut t: usize = 0;
                while t < w
                    invariant
                        0 <= t <= w,
                        ret@ == prev + spec_spaces(t as nat),
                    decreases w - t,
                {
                    ret.append(" ");
                    proof {
                        reveal_strlit(" ");
                        assert(ret@ =~= prev + spec_spaces((t + 1) as nat));
                    }
                    t += 1;
                }
            },
            PrefixFragment::VerticalLine => {
                ret.append("│");
                proof {
                    reveal_strlit("│");
                    assert(ret@ =~= prev + seq!['│']);
                }
            },
        }
        proof {
            assert(ret@ =~= spec_prefix_str(prefixs@.take(i + 1)));
        }
        i += 1;
    }
    proof {
        assert(prefixs@.take(prefixs@.len() as int) =~= prefixs@);
    }
    ret
}

/// Copy of the fragment list, so that sibling branches never observe each
/// other's pushes.
fn clone_prefixes(v: &Vec<PrefixFragment>) -> (r: Vec<PrefixFragment>)
    ensures
        r@ == v@,
{
    let mut r: Vec<PrefixFragment> = Vec::new();
    let mut i: usize = 0;
    while i < v.len()
        invariant
            0 <= i <= v@.len(),
            r@ == v@.take(i as int),
        decreases v@.len() - i,
    {
        r.push(v[i]);
        proof {
            assert(r@ =~= v@.take(i + 1));
        }
        i += 1;
    }
    proof {
        assert(v@.take(v@.len() as int) =~= v@);
    }
    r
}

/// Depth-first, pre-order rendering with a running prefix accumulator:
/// append to `buf` the label of this node and then the subtrees of its
/// children in order. `total_child` and `child_index` place the node among
/// its siblings; `prefixs` is the indentation accumulated from the root
/// down to the node's parent.
pub fn dfs_write(
    buf: &mut String,
    process: &Process,
    show_pgids: bool,
    depth: usize,
    total_child: usize,
    child_index: usize,
    prefixs: &Vec<PrefixFragment>,
)
    ensures
        final(buf)@ == old(buf)@ + spec_render(
            *process,
            show_pgids,
            depth as int,
            total_child as int,
            child_index as int,
            prefixs@,
        ),
    decreases *process, 1int, 0int,
{
    let display_name = get_name(process, show_pgids);
    let name_len = char_count(display_name.as_str());
    let mut prefixs2 = clone_prefixes(prefixs);
    if depth == 0 {
        buf.append(display_name.as_str());
        prefixs2.push(PrefixFragment::BlankSpace(name_len + 1));
    } else {
        if child_index == 0 {
            if total_child == 1 {
                buf.append("───");
            } else {
                buf.append("─┬─");
            }
            buf.append(display_name.as_str());
        } else {
            buf.append("\n");
            let pref = generate_prefix(prefixs);
            buf.append(pref.as_str());
            if total_child > 0 && child_index == total_child - 1 {
                buf.append("└");
            } else {
                buf.append("├");
            }
            buf.append("─");
            buf.append(display_name.as_str());
        }
        if total_child == 1 {
            prefixs2.push(PrefixFragment::BlankSpace(name_len + 3));
        } else {
            prefixs2.push(PrefixFragment::VerticalLine);
            prefixs2.push(PrefixFragment::BlankSpace(name_len + 2));
        }
    }
    let ghost fs2 = spec_child_frags(
        *process,
        show_pgids,
        depth as int,
        total_child as int,
        prefixs@,
    );
    proof {
        assert(prefixs2@ =~= fs2);
        assert(buf@ =~= old(buf)@ + spec_label(
            *process,
            show_pgids,
            depth as int,
            total_child as int,
            child_index as int,
            prefixs@,
        ));
    }
    let total = process.children.len();
    let mut k: usize = 0;
    proof {
        assert(old(buf)@ + spec_render(
            *process,
            show_pgids,
            depth as int,
            total_child as int,
            child_index as int,
            prefixs@,
        ) =~= buf@ + spec_render_kids(*process, 0, show_pgids, fs2));
    }
    while k < total
        invariant
            0 <= k <= total,
            total == process.children@.len(),
            prefixs2@ == fs2,
            old(buf)@ + spec_render(
                *process,
                show_pgids,
                depth as int,
                total_child as int,
                child_index as int,
                prefixs@,
            ) == buf@ + spec_render_kids(*process, k as int, show_pgids, fs2),
        decreases total - k,
    {
        let ghost bufk = buf@;
        proof {
            assert(spec_render_kids(*process, k as int, show_pgids, fs2) == spec_render(
                process.children@[k as int],
                show_pgids,
                1,
                total as int,
                k as int,
                fs2,
            ) + spec_render_kids(*process, k + 1, show_pgids, fs2));
        }
        dfs_write(buf, &process.children[k], show_pgids, 1, total, k, &prefixs2);
        proof {
            assert(old(buf)@ + spec_render(
                *process,
                show_pgids,
                depth as int,
                total_child as int,
                child_index as int,
                prefixs@,
            ) =~= buf@ + spec_render_kids(*process, k + 1, show_pgids, fs2));
        }
        k += 1;
    }
    proof {
        assert(buf@ =~= old(buf)@ + spec_render(
            *process,
            show_pgids,
            depth as int,
            total_child as int,
            child_index as int,
            prefixs@,
        ));
    }
}

/// The whole tree as one string: what is printed for a query's root node.
pub fn render_to_string(process: &Process, show_pgids: bool) -> (s: String)
    ensures
        s@ == spec_render(*process, show_pgids, 0, 0, 0, Seq::empty()),
{
    let mut buf = String::new();
    let prefixs: Vec<PrefixFragment> = Vec::new();
    dfs_write(&mut buf, process, show_pgids, 0, 0, 0, &prefixs);
    buf
}

/// Number of line breaks in a piece of output.
pub open spec fn newline_count(s: Seq<char>) -> nat
    decreases s.len(),
{
    if s.len() == 0 {
        0
    } else {
        newline_count(s.drop_last()) + (if s.last() == '\n' {
            1nat
        } else {
            0nat
        })
    }
}

proof fn lemma_nl_add(a: Seq<char>, b: Seq<char>)
    ensures
        newline_count(a + b) == newline_count(a) + newline_count(b),
    decreases b.len(),
{
    if b.len() == 0 {
        assert(a + b =~= a);
    } else {
        lemma_nl_add(a, b.drop_last());
        assert((a + b).drop_last() =~= a + b.drop_last());
        assert((a + b).last() == b.last());
    }
}

proof fn lemma_nl_none(s: Seq<char>)
    requires
        forall|i: int| 0 <= i < s.len() ==> s[i] != '\n',
    ensures
        newline_count(s) == 0,
    decreases s.len(),
{
    if s.len() > 0 {
        assert(forall|i: int| 0 <= i < s.len() - 1 ==> s.drop_last()[i] == s[i]);
        lemma_nl_none(s.drop_last());
        assert(s.last() == s[s.len() - 1]);
    }
}

proof fn lemma_nl_digits(n: int)
    ensures
        newline_count(spec_u32_digits(n)) == 0,
    decreases n,
{
    if n < 10 {
        assert(spec_digit_char(n) != '\n');
        lemma_nl_none(spec_u32_digits(n));
    } else {
        lemma_nl_digits(n / 10);
        let s = spec_u32_digits(n);
        assert(s.drop_last() =~= spec_u32_digits(n / 10));
        assert(s.last() == spec_digit_char(n % 10));
    }
}

/// The display name differs between the two identifier modes only by the
/// `(pid)` digits, which hold no line break.
proof fn lemma_nl_display(p: Process)
    ensures
        newline_count(spec_display_name(p, true)) == newline_count(p.name@),
        newline_count(spec_display_name(p, false)) == newline_count(p.name@),
{
    if p.stat.pid != 0 {
        reveal_strlit("(");
        reveal_strlit(")");
        lemma_nl_none("("@);
        lemma_nl_none(")"@);
        lemma_nl_digits(p.stat.pid as int);
        lemma_nl_add(p.name@, "("@);
        lemma_nl_add(p.name@ + "("@, spec_u32_digits(p.stat.pid as int));
        lemma_nl_add(p.name@ + "("@ + spec_u32_digits(p.stat.pid as int), ")"@);
    }
}

/// Indentation never holds a line break.
proof fn lemma_nl_prefix(fs: Seq<PrefixFragment>)
    ensures
        newline_count(spec_prefix_str(fs)) == 0,
    decreases fs.len(),
{
    if fs.len() > 0 {
        lemma_nl_prefix(fs.drop_last());
        match fs.last() {
            PrefixFragment::BlankSpace(w) => {
                lemma_nl_none(spec_spaces(w as nat));
            },
            PrefixFragment::VerticalLine => {
                lemma_nl_none(seq!['│']);
            },
        }
        lemma_nl_add(spec_prefix_str(fs.drop_last()), spec_fragment_str(fs.last()));
    }
}

/// A node's label starts a line exactly when it is a non-first sibling below
/// the root, whichever identifier mode is in force and whatever indentation
/// was accumulated.
proof fn lemma_nl_label(
    p: Process,
    depth: int,
    total: int,
    index: int,
    fs1: Seq<PrefixFragment>,
    fs2: Seq<PrefixFragment>,
)
    ensures
        newline_count(spec_label(p, true, depth, total, index, fs1)) == newline_count(
            spec_label(p, false, depth, total, index, fs2),
        ),
{
    lemma_nl_display(p);
    let n1 = spec_display_name(p, true);
    let n2 = spec_display_name(p, false);
    if depth == 0 {
    } else if index == 0 {
        reveal_strlit("───");
        reveal_strlit("─┬─");
        lemma_nl_none("───"@);
        lemma_nl_none("─┬─"@);
        if total == 1 {
            lemma_nl_add("───"@, n1);
            lemma_nl_add("───"@, n2);
        } else {
            lemma_nl_add("─┬─"@, n1);
            lemma_nl_add("─┬─"@, n2);
        }
    } else {
        reveal_strlit("\n");
        reveal_strlit("└");
        reveal_strlit("├");
        reveal_strlit("─");
        assert(newline_count("\n"@) == 1) by {
            reveal_strlit("\n");
            assert("\n"@.drop_last() =~= Seq::<char>::empty());
            assert("\n"@.last() == '\n');
            assert(newline_count(Seq::<char>::empty()) == 0);
        }
        lemma_nl_none("└"@);
        lemma_nl_none("├"@);
        lemma_nl_none("─"@);
        lemma_nl_prefix(fs1);
        lemma_nl_prefix(fs2);
        let g = if index + 1 == total {
            "└"@
        } else {
            "├"@
        };
        lemma_nl_add("\n"@, spec_prefix_str(fs1));
        lemma_nl_add("\n"@ + spec_prefix_str(fs1), g);
        lemma_nl_add("\n"@ + spec_prefix_str(fs1) + g, "─"@);
        lemma_nl_add("\n"@ + spec_prefix_str(fs1) + g + "─"@, n1);
        lemma_nl_add("\n"@, spec_prefix_str(fs2));
        lemma_nl_add("\n"@ + spec_prefix_str(fs2), g);
        lemma_nl_add("\n"@ + spec_prefix_str(fs2) + g, "─"@);
        lemma_nl_add("\n"@ + spec_prefix_str(fs2) + g + "─"@, n2);
    }
}

/// Toggling "show identifiers" changes only what stands inside the labels —
/// the `(pid)` suffixes and the matching widths — never the line structure:
/// the output has exactly as many line breaks with identifiers as without,
/// wherever the node stands and whatever indentation leads to it.
pub proof fn lemma_toggle_newlines(
    p: Process,
    depth: int,
    total: int,
    index: int,
    fs1: Seq<PrefixFragment>,
    fs2: Seq<PrefixFragment>,
)
    ensures
        newline_count(spec_render(p, true, depth, total, index, fs1)) == newline_count(
            spec_render(p, false, depth, total, index, fs2),
        ),
    decreases p, 1int, 0int,
{
    lemma_nl_label(p, depth, total, index, fs1, fs2);
    let g1 = spec_child_frags(p, true, depth, total, fs1);
    let g2 = spec_child_frags(p, false, depth, total, fs2);
    lemma_toggle_newlines_kids(p, 0, g1, g2);
    lemma_nl_add(spec_label(p, true, depth, total, index, fs1), spec_render_kids(p, 0, true, g1));
    lemma_nl_add(spec_label(p, false, depth, total, index, fs2), spec_render_kids(p, 0, false, g2));
}

proof fn lemma_toggle_newlines_kids(
    p: Process,
    k: int,
    fs1: Seq<PrefixFragment>,
    fs2: Seq<PrefixFragment>,
)
    ensures
        newline_count(spec_render_kids(p, k, true, fs1)) == newline_count(
            spec_render_kids(p, k, false, fs2),
        ),
    decreases p, 0int, p.children@.len() - k,
{
    if 0 <= k < p.children@.len() {
        let c = p.children@[k];
        let t = p.children@.len() as int;
        lemma_toggle_newlines(c, 1, t, k, fs1, fs2);
        lemma_toggle_newlines_kids(p, k + 1, fs1, fs2);
        lemma_nl_add(spec_render(c, true, 1, t, k, fs1), spec_render_kids(p, k + 1, true, fs1));
        lemma_nl_add(spec_render(c, false, 1, t, k, fs2), spec_render_kids(p, k + 1, false, fs2));
    }
}

/// Rendering is deterministic: the output is a function of the tree and the
/// identifier flag alone, so any two renderings of the same tree are
/// byte-identical.
pub proof fn lemma_render_deterministic(p: Process, show_pgids: bool, s1: Seq<char>, s2: Seq<char>)
    requires
        s1 == spec_render(p, show_pgids, 0, 0, 0, Seq::empty()),
        s2 == spec_render(p, show_pgids, 0, 0, 0, Seq::empty()),
    ensures
        s1 == s2,
{
}

/// Rendering a single node with no children produces exactly its display
/// name: no connectors and no line breaks.
pub proof fn lemma_render_leaf(p: Process, show_pgids: bool)
    requires
        p.children@.len() == 0,
    ensures
        spec_render(p, show_pgids, 0, 0, 0, Seq::empty()) == spec_display_name(p, show_pgids),
{
    assert(spec_render(p, show_pgids, 0, 0, 0, Seq::empty()) =~= spec_display_name(p, show_pgids));
}

} // verus!
