//! Rendering a tree to a human-readable dump.
//!
//! One line per node, in document order: two spaces per depth level, the
//! node's label, `@start..end`, and for tokens either the quoted source
//! slice covering the span or ` +` when none is available.  Offsets index
//! characters of the source.

use vstd::prelude::*;
use vstd::string::{StrSliceExecFns, StringExecFns};
use crate::links::{Kind, Links};
use crate::model::{depth, in_bounds, range_seq};
use crate::tree::Tree;

verus! {

/// A payload that can label its node in a dump.
pub trait TreeLabel {
    /// The characters the label consists of.
    spec fn label_spec(&self) -> Seq<char>;

    /// Produce the label.
    fn label(&self) -> (r: String)
        ensures
            r@ == self.label_spec(),
    ;
}

impl TreeLabel for String {
    open spec fn label_spec(&self) -> Seq<char> {
        self@
    }

    fn label(&self) -> (r: String) {
        self.clone()
    }
}

/// The decimal digit character for `d`.
pub open spec fn digit_char(d: int) -> char {
    if d == 0 { '0' }
    else if d == 1 { '1' }
    else if d == 2 { '2' }
    else if d == 3 { '3' }
    else if d == 4 { '4' }
    else if d == 5 { '5' }
    else if d == 6 { '6' }
    else if d == 7 { '7' }
    else if d == 8 { '8' }
    else { '9' }
}

/// The decimal representation of `n`, most significant digit first.
pub open spec fn dec_rep(n: nat) -> Seq<char>
    decreases n,
{
    if n < 10 {
        seq![digit_char(n as int)]
    } else {
        dec_rep(n / 10) + seq![digit_char((n % 10) as int)]
    }
}

/// `n` spaces.
pub open spec fn indent(n: nat) -> Seq<char> {
    Seq::new(n, |k: int| ' ')
}

/// The labels of every slot, in document order.
pub open spec fn labels_of<T: TreeLabel>(t: Tree<T>) -> Seq<Seq<char>> {
    t.vals().map_values(|x: T| x.label_spec())
}

/// The trailing source fragment of a token line.
pub open spec fn tail_of(kind: Kind, src: Option<Seq<char>>, sp: crate::span::Span) -> Seq<char> {
    if kind == Kind::Token {
        match src {
            Some(txt) => if sp.start <= sp.end && sp.end <= txt.len() {
                seq![' ', '"'] + txt.subrange(sp.start as int, sp.end as int) + seq!['"']
            } else {
                seq![' ', '+']
            },
            None => seq![' ', '+'],
        }
    } else {
        Seq::empty()
    }
}

/// The line a dump emits for a slot of depth `d`, label `lab`, kind
/// `kind` and span `sp`.
pub open spec fn line_parts(
    d: nat,
    lab: Seq<char>,
    kind: Kind,
    sp: crate::span::Span,
    src: Option<Seq<char>>,
) -> Seq<char> {
    indent(2 * d) + lab + seq!['@'] + dec_rep(sp.start as nat) + seq!['.', '.']
        + dec_rep(sp.end as nat) + tail_of(kind, src, sp) + seq!['\n']
}

/// The one line a dump emits for slot `i`.
pub open spec fn line_of(
    labels: Seq<Seq<char>>,
    s: Seq<Links>,
    src: Option<Seq<char>>,
    i: int,
) -> Seq<char> {
    line_parts(depth(s, i), labels[i], s[i].kind, s[i].span, src)
}

/// All lines from slot `i` to the end of the arena.
pub open spec fn render_from(
    labels: Seq<Seq<char>>,
    s: Seq<Links>,
    src: Option<Seq<char>>,
    i: int,
) -> Seq<char>
    decreases s.len() - i,
{
    if !in_bounds(s, i) {
        Seq::empty()
    } else {
        line_of(labels, s, src, i) + render_from(labels, s, src, i + 1)
    }
}

/// The complete dump of a tree, given the optional source text.
pub open spec fn render<T: TreeLabel>(t: Tree<T>, src: Option<Seq<char>>) -> Seq<char> {
    render_from(labels_of(t), t.arena(), src, 0)
}

/// The one-character string for digit `d`.
fn digit_str(d: usize) -> (r: &'static str)
    requires
        d < 10,
    ensures
        r@ == seq![digit_char(d as int)],
{
    proof {
        reveal_strlit("0123456789");
    }
    let lits = "0123456789";
    let r = lits.substring_char(d, d + 1);
    proof {
        assert(r@ =~= seq![digit_char(d as int)]) by {
            assert(r@[0] == lits@[d as int]);
            if d == 0 { assert(lits@[0] == '0'); }
            else if d == 1 { assert(lits@[1] == '1'); }
            else if d == 2 { assert(lits@[2] == '2'); }
            else if d == 3 { assert(lits@[3] == '3'); }
            else if d == 4 { assert(lits@[4] == '4'); }
            else if d == 5 { assert(lits@[5] == '5'); }
            else if d == 6 { assert(lits@[6] == '6'); }
            else if d == 7 { assert(lits@[7] == '7'); }
            else if d == 8 { assert(lits@[8] == '8'); }
            else { assert(lits@[9] == '9'); }
        }
    }
    r
}

/// The reversed digit characters of `v`.
spec fn rev_chars(v: Seq<usize>) -> Seq<char> {
    Seq::new(v.len(), |k: int| digit_char(v[v.len() - 1 - k] as int))
}

/// Format `n` in decimal.
fn fmt_usize(n: usize) -> (r: String)
    ensures
        r@ == dec_rep(n as nat),
{
    let mut digits: Vec<usize> = Vec::new();
    let mut m = n;
    loop
        invariant_except_break
            dec_rep(n as nat) == dec_rep(m as nat) + rev_chars(digits@),
        invariant
            forall|k: int| 0 <= k < digits@.len() ==> #[trigger] digits@[k] < 10,
        ensures
            dec_rep(n as nat) == rev_chars(digits@),
            forall|k: int| 0 <= k < digits@.len() ==> #[trigger] digits@[k] < 10,
        decreases m,
    {
        let d = m % 10;
        let ghost pre = digits@;
        digits.push(d);
        proof {
            assert(rev_chars(pre.push(d)) =~= seq![digit_char(d as int)] + rev_chars(pre));
            if m >= 10 {
                assert(dec_rep(m as nat)
                    == dec_rep((m as nat) / 10) + seq![digit_char(d as int)]);
                assert(dec_rep((m / 10) as nat) + (seq![digit_char(d as int)] + rev_chars(pre))
                    =~= (dec_rep((m / 10) as nat) + seq![digit_char(d as int)]) + rev_chars(pre));
            } else {
                assert(dec_rep(m as nat) == seq![digit_char(m as int)]);
                assert(seq![digit_char(d as int)] + rev_chars(pre)
                    =~= dec_rep(m as nat) + rev_chars(pre));
            }
        }
        m = m / 10;
        if m == 0 {
            break;
        }
    }
    let mut out = String::new();
    let mut i = digits.len();
    loop
        invariant
            i <= digits@.len(),
            forall|k: int| 0 <= k < digits@.len() ==> #[trigger] digits@[k] < 10,
            out@ =~= rev_chars(digits@).take(digits@.len() - i),
        ensures
            out@ =~= rev_chars(digits@),
        decreases i,
    {
        if i == 0 {
            break;
        }
        i = i - 1;
        out.append(digit_str(digits[i]));
        proof {
            assert(out@ =~= rev_chars(digits@).take(digits@.len() - i)) by {
                assert(rev_chars(digits@)[digits@.len() - 1 - i]
                    == digit_char(digits@[i as int] as int));
            }
        }
    }
    out
}

/// Append `2 * d` spaces to `out`.
fn push_indent(out: &mut String, d: usize)
    ensures
        final(out)@ == old(out)@ + indent(2 * d as nat),
{
    proof {
        reveal_strlit("  ");
    }
    let mut j: usize = 0;
    loop
        invariant
            j <= d,
            out@ =~= old(out)@ + indent(2 * j as nat),
        ensures
            out@ =~= old(out)@ + indent(2 * d as nat),
        decreases d - j,
    {
        if j == d {
            break;
        }
        let ghost mid = out@;
        out.append("  ");
        j = j + 1;
        proof {
            reveal_strlit("  ");
            assert("  "@ =~= seq![' ', ' ']);
            assert(out@ =~= old(out)@ + indent(2 * j as nat)) by {
                assert(out@ == mid + "  "@);
                assert forall|k: int| 0 <= k < out@.len()
                    implies out@[k] == (old(out)@ + indent(2 * j as nat))[k] by {
                    if k < old(out)@.len() {
                    } else {
                        assert((old(out)@ + indent(2 * j as nat))[k] == ' ');
                        if k < mid.len() {
                            assert(mid[k] == indent(2 * (j - 1) as nat)[k - old(out)@.len()]);
                        } else {
                            assert(out@[k] == "  "@[k - mid.len()]);
                        }
                    }
                }
                assert(out@.len() == old(out)@.len() + 2 * j);
            }
        }
    }
}

/// Append one dump line to `out`.
#[verifier::rlimit(60)]
fn push_line<'x>(
    out: &mut String,
    d: usize,
    lab: &String,
    kind: Kind,
    sp: crate::span::Span,
    src: Option<&'x str>,
)
    ensures
        final(out)@ == old(out)@ + line_parts(
            d as nat,
            lab@,
            kind,
            sp,
            match src { Some(t) => Some(t@), None => None },
        ),
{
    push_indent(out, d);
    out.append(lab.as_str());
    out.append("@");
    let startn = fmt_usize(sp.start);
    out.append(startn.as_str());
    out.append("..");
    let endn = fmt_usize(sp.end);
    out.append(endn.as_str());
    if matches!(kind, Kind::Token) {
        match src {
            Some(txt) => {
                let tl = txt.unicode_len();
                if sp.start <= sp.end && sp.end <= tl {
                    out.append(" \"");
                    let piece = txt.substring_char(sp.start, sp.end);
                    out.append(piece);
                    out.append("\"");
                } else {
                    out.append(" +");
                }
            },
            None => {
                out.append(" +");
            },
        }
    }
    out.append("\n");
    proof {
        reveal_strlit("@");
        reveal_strlit("..");
        reveal_strlit("\n");
        reveal_strlit(" +");
        reveal_strlit(" \"");
        reveal_strlit("\"");
        assert("@"@ =~= seq!['@']);
        assert(".."@ =~= seq!['.', '.']);
        assert("\n"@ =~= seq!['\n']);
        assert(" +"@ =~= seq![' ', '+']);
        assert(" \""@ =~= seq![' ', '"']);
        assert("\""@ =~= seq!['"']);
        assert(out@ =~= old(out)@ + line_parts(
            d as nat,
            lab@,
            kind,
            sp,
            match src { Some(t) => Some(t@), None => None },
        ));
    }
}

/// Render one tree, with or without a source to quote tokens from.
fn render_with<'x, T: TreeLabel>(tree: &Tree<T>, src: Option<&'x str>) -> (r: String)
    requires
        tree.wf(),
    ensures
        r@ == render(*tree, match src { Some(t) => Some(t@), None => None }),
{
    let ghost labels = labels_of(*tree);
    let ghost s = tree.arena();
    let ghost sv: Option<Seq<char>> = match src {
        Some(t) => Some(t@),
        None => None,
    };
    let mut out = String::new();
    let mut w = tree.walk().with_depths();
    proof {
        assert(render_from(labels, s, sv, 0) == render(*tree, sv));
        if s.len() > 0 {
            assert(w.walk().remaining()[0] == 0);
        } else {
            assert(render_from(labels, s, sv, 0) == Seq::<char>::empty());
        }
    }
    loop
        invariant
            w.wf(),
            w.walk().host() == *tree,
            w.walk().bound() is None,
            tree.wf(),
            labels == labels_of(*tree),
            s == tree.arena(),
            sv == (match src { Some(t) => Some(t@), None => None }),
            w.walk().remaining().len() > 0 ==> render(*tree, sv)
                =~= out@ + render_from(labels, s, sv, w.walk().remaining()[0]),
            w.walk().remaining().len() == 0 ==> out@ =~= render(*tree, sv),
            w.walk().remaining() == range_seq(
                (match w.walk().cursor() { Some(c) => c as int, None => s.len() as int }),
                s.len() as int,
            ),
        ensures
            out@ =~= render(*tree, sv),
        decreases w.walk().remaining().len(),
    {
        let ghost rem = w.walk().remaining();
        let step = w.next();
        match step {
            None => {
                break;
            },
            Some((d, node)) => {
                proof {
                    assert(rem.len() > 0);
                    assert(node.idx() == rem[0]);
                    assert(render_from(labels, s, sv, node.idx())
                        == line_of(labels, s, sv, node.idx())
                            + render_from(labels, s, sv, node.idx() + 1));
                }
                let ghost out0 = out@;
                let ghost i = node.idx();
                let lab = node.value().label();
                let sp = node.span();
                let k = node.kind();
                push_line(&mut out, d, &lab, k, sp, src);
                proof {
                    assert(labels[i] == tree.vals()[i].label_spec());
                    assert(out@ =~= out0 + line_of(labels, s, sv, i));
                    assert(range_seq(i, s.len() as int).drop_first()
                        =~= range_seq(i + 1, s.len() as int));
                    if i + 1 < s.len() {
                        assert(w.walk().remaining()[0] == i + 1);
                    }
                }
            },
        }
    }
    out
}

/// Render the tree without a source: every token line ends in ` +`.
pub fn print<T: TreeLabel>(tree: &Tree<T>) -> (r: String)
    requires
        tree.wf(),
    ensures
        r@ == render(*tree, None),
{
    render_with(tree, None)
}

/// Render the tree quoting, for each token whose span lies inside
/// `source`, the character slice it covers.
pub fn print_with_source<T: TreeLabel>(tree: &Tree<T>, source: &str) -> (r: String)
    requires
        tree.wf(),
    ensures
        r@ == render(*tree, Some(source@)),
{
    render_with(tree, Some(source))
}

} // verus!
