//! What holds of every parse: the trees it yields are canonical, and the
//! canonical markup of canonical trees reads back as the same trees.

use vstd::prelude::*;
use crate::grammar::{
    Fault, at_close, lemma_scan_end, lemma_skip_ws, parse_document, parse_node, parse_siblings,
    parse_tag, parse_text, scan_end, skip_ws,
};
use crate::text::{is_ws, trim, trim_end, trim_start};
use crate::tree::{markup_all, markup_from, markup_of, Payload, Tree};

verus! {

/// Text as a parse yields it: not empty, without `<`, and without
/// whitespace at either end.
pub open spec fn text_ok(c: Seq<char>) -> bool {
    &&& c.len() > 0
    &&& !c.contains('<')
    &&& !is_ws(c[0])
    &&& !is_ws(c.last())
}

/// A tag name as a parse yields it: without `>`, and not starting with `/`.
pub open spec fn name_ok(n: Seq<char>) -> bool {
    !n.contains('>') && !(n.len() > 0 && n[0] == '/')
}

/// Whether `t` is a text node.
pub open spec fn is_text(t: Tree) -> bool {
    t.payload is Text
}

/// A tree as a parse yields it: its text and names are as above, a text
/// node has no children, and no two text nodes are next to each other.
pub open spec fn canonical_tree(t: Tree) -> bool
    decreases t,
{
    match t.payload {
        Payload::Element(n) => name_ok(n) && no_adjacent_text(t.children) && forall|i: int|
            0 <= i < t.children.len() ==> canonical_tree(#[trigger] t.children[i]),
        Payload::Text(c) => text_ok(c) && t.children.len() == 0,
    }
}

/// No two text nodes stand next to each other in `ts`.
pub open spec fn no_adjacent_text(ts: Seq<Tree>) -> bool {
    forall|i: int| 0 <= i && i + 1 < ts.len() ==> !(is_text(#[trigger] ts[i]) && is_text(ts[i + 1]))
}

/// A sequence of canonical trees, no two text nodes next to each other.
pub open spec fn canonical(ts: Seq<Tree>) -> bool {
    no_adjacent_text(ts) && forall|i: int| 0 <= i < ts.len() ==> canonical_tree(#[trigger] ts[i])
}

proof fn lemma_trim_end(t: Seq<char>)
    ensures
        trim_end(t).len() <= t.len(),
        trim_end(t) == t.subrange(0, trim_end(t).len() as int),
        trim_end(t).len() > 0 ==> !is_ws(trim_end(t).last()),
        t.len() > 0 && !is_ws(t[0]) ==> trim_end(t).len() > 0,
    decreases t.len(),
{
    if t.len() > 0 && is_ws(t.last()) {
        lemma_trim_end(t.drop_last());
        assert(t.drop_last().subrange(0, trim_end(t).len() as int) =~= t.subrange(
            0,
            trim_end(t).len() as int,
        ));
        if t.len() > 1 {
            assert(t.drop_last()[0] == t[0]);
        }
    } else {
        assert(t.subrange(0, t.len() as int) =~= t);
    }
}

proof fn lemma_text_ok(s: Seq<char>, p: int)
    requires
        0 <= p < s.len(),
        s[p] != '<',
        !is_ws(s[p]),
    ensures
        ({
            let (t, r) = parse_text(s, p)->Ok_0;
            &&& canonical_tree(t)
            &&& is_text(t)
            &&& p < r <= s.len()
            &&& (r == s.len() || s[r] == '<')
        }),
{
    let e = scan_end(s, p, '<');
    lemma_scan_end(s, p, '<');
    let raw = s.subrange(p, e);
    assert(trim_start(raw) == raw);
    lemma_trim_end(raw);
    let c = trim(raw);
    assert(c == trim_end(raw));
    assert(c[0] == raw[0]);
    assert forall|i: int| 0 <= i < c.len() implies c[i] != '<' by {
        assert(c[i] == raw[i]);
        assert(raw[i] == s[p + i]);
    }
}

proof fn lemma_siblings_ok(s: Seq<char>, p: int)
    requires
        0 <= p <= s.len(),
        parse_siblings(s, p) is Ok,
    ensures
        ({
            let (ts, e) = parse_siblings(s, p)->Ok_0;
            &&& canonical(ts)
            &&& p <= e <= s.len()
            &&& (ts.len() > 0 && s[skip_ws(s, p)] == '<' ==> !is_text(ts[0]))
        }),
    decreases s.len() - p, 2int,
{
    lemma_skip_ws(s, p);
    let q = skip_ws(s, p);
    if q >= s.len() || at_close(s, q) {
    } else {
        lemma_node_ok(s, q);
        let (t, r) = parse_node(s, q)->Ok_0;
        lemma_siblings_ok(s, r);
        let (ts2, e) = parse_siblings(s, r)->Ok_0;
        let ts = seq![t] + ts2;
        assert(ts[0] == t);
        assert forall|i: int| 0 < i < ts.len() implies ts[i] == ts2[i - 1] by {}
        if is_text(t) && ts2.len() > 0 {
            lemma_skip_ws(s, r);
            assert(skip_ws(s, r) == r);
        }
        assert forall|i: int| 0 <= i && i + 1 < ts.len() implies !(is_text(#[trigger] ts[i]) && is_text(ts[i + 1])) by {
            if i > 0 {
                assert(ts[i] == ts2[i - 1]);
                assert(ts[i + 1] == ts2[i]);
            }
        }
        assert forall|i: int| 0 <= i < ts.len() implies canonical_tree(#[trigger] ts[i]) by {
            if i > 0 {
                assert(ts[i] == ts2[i - 1]);
            }
        }
    }
}

proof fn lemma_node_ok(s: Seq<char>, p: int)
    requires
        0 <= p < s.len(),
        !is_ws(s[p]),
        !at_close(s, p),
        parse_node(s, p) is Ok,
    ensures
        ({
            let (t, r) = parse_node(s, p)->Ok_0;
            &&& canonical_tree(t)
            &&& p < r <= s.len()
            &&& (s[p] == '<' ==> !is_text(t))
            &&& (is_text(t) ==> r == s.len() || s[r] == '<')
        }),
    decreases s.len() - p, 1int,
{
    if s[p] == '<' {
        lemma_tag_ok(s, p);
    } else {
        lemma_text_ok(s, p);
    }
}

proof fn lemma_tag_ok(s: Seq<char>, p: int)
    requires
        0 <= p < s.len(),
        s[p] == '<',
        !at_close(s, p),
        parse_tag(s, p) is Ok,
    ensures
        ({
            let (t, r) = parse_tag(s, p)->Ok_0;
            &&& canonical_tree(t)
            &&& p < r <= s.len()
            &&& !is_text(t)
        }),
    decreases s.len() - p, 0int,
{
    lemma_scan_end(s, p + 1, '>');
    let e = scan_end(s, p + 1, '>');
    let name = s.subrange(p + 1, e);
    lemma_siblings_ok(s, e + 1);
    let (children, q) = parse_siblings(s, e + 1)->Ok_0;
    lemma_scan_end(s, q + 2, '>');
    assert forall|i: int| 0 <= i < name.len() implies name[i] != '>' by {
        assert(name[i] == s[p + 1 + i]);
    }
    if name.len() > 0 {
        assert(name[0] == s[p + 1]);
    }
}

/// Every tree that a parse of a document yields is canonical: in
/// particular, no text node's content holds `<`, the character that starts
/// a tag, at any depth.
pub proof fn parsed_trees_are_canonical(s: Seq<char>, ts: Seq<Tree>)
    requires
        parse_document(s) == Ok::<Seq<Tree>, Fault>(ts),
    ensures
        canonical(ts),
{
    lemma_siblings_ok(s, 0);
}

proof fn lemma_scan_end_at(s: Seq<char>, p: int, k: int, d: char)
    requires
        0 <= p <= k <= s.len(),
        forall|i: int| p <= i < k ==> s[i] != d,
        k == s.len() || s[k] == d,
    ensures
        scan_end(s, p, d) == k,
    decreases k - p,
{
    if p < k {
        lemma_scan_end_at(s, p + 1, k, d);
    }
}

/// `s` holds `m` from position `p` on.
pub open spec fn holds_at(s: Seq<char>, p: int, m: Seq<char>) -> bool {
    0 <= p && p + m.len() <= s.len() && s.subrange(p, p + m.len()) == m
}

proof fn lemma_holds_at_char(s: Seq<char>, p: int, m: Seq<char>, j: int)
    requires
        holds_at(s, p, m),
        0 <= j < m.len(),
    ensures
        s[p + j] == m[j],
{
    assert(s.subrange(p, p + m.len())[j] == s[p + j]);
}

proof fn lemma_holds_at_part(s: Seq<char>, p: int, m: Seq<char>, i: int, k: int)
    requires
        holds_at(s, p, m),
        0 <= i <= k <= m.len(),
    ensures
        holds_at(s, p + i, m.subrange(i, k)),
{
    assert(s.subrange(p + i, p + k) =~= m.subrange(i, k)) by {
        assert forall|j: int| 0 <= j < k - i implies s.subrange(p + i, p + k)[j] == m.subrange(i, k)[j] by {
            lemma_holds_at_char(s, p, m, i + j);
        }
    }
}

proof fn lemma_read_tree(s: Seq<char>, p: int, t: Tree)
    requires
        canonical_tree(t),
        holds_at(s, p, markup_of(t)),
        is_text(t) ==> p + markup_of(t).len() == s.len() || s[p + markup_of(t).len()] == '<',
    ensures
        p < s.len(),
        !is_ws(s[p]),
        !at_close(s, p),
        parse_node(s, p) == Ok::<(Tree, int), Fault>((t, p + markup_of(t).len())),
    decreases t, 0int,
{
    let m = markup_of(t);
    match t.payload {
        Payload::Text(c) => {
            assert forall|i: int| p <= i < p + c.len() implies s[i] != '<' by {
                lemma_holds_at_char(s, p, m, i - p);
                assert(!c.contains('<'));
                assert(c[i - p] != '<');
            }
            lemma_holds_at_char(s, p, m, 0);
            lemma_scan_end_at(s, p, p + c.len(), '<');
            assert(s.subrange(p, p + c.len()) == c);
            assert(trim_start(c) == c);
            assert(trim_end(c) == c);
            assert(t.children =~= Seq::<Tree>::empty());
        },
        Payload::Element(n) => {
            let kids = markup_from(t.children, 0);
            let a = p + 1 + n.len();
            let b = a + 1;
            let k = b + kids.len();
            let f = k + 2 + n.len();
            assert(m =~= seq!['<'] + n + seq!['>'] + kids + seq!['<', '/'] + n + seq!['>']);
            assert(m.subrange(1, 1 + n.len() as int) =~= n);
            assert(m.subrange(b - p, k - p) =~= kids);
            assert(m.subrange(k + 2 - p, f - p) =~= n);
            lemma_holds_at_char(s, p, m, 0);
            lemma_holds_at_char(s, p, m, a - p);
            lemma_holds_at_char(s, p, m, k - p);
            lemma_holds_at_char(s, p, m, k + 1 - p);
            lemma_holds_at_char(s, p, m, f - p);
            lemma_holds_at_part(s, p, m, 1, 1 + n.len() as int);
            lemma_holds_at_part(s, p, m, b - p, k - p);
            lemma_holds_at_part(s, p, m, k + 2 - p, f - p);
            assert forall|i: int| p + 1 <= i < a implies s[i] != '>' by {
                lemma_holds_at_char(s, p + 1, n, i - p - 1);
                assert(!n.contains('>'));
                assert(n[i - p - 1] != '>');
            }
            lemma_scan_end_at(s, p + 1, a, '>');
            assert forall|i: int| k + 2 <= i < f implies s[i] != '>' by {
                lemma_holds_at_char(s, k + 2, n, i - k - 2);
                assert(!n.contains('>'));
                assert(n[i - k - 2] != '>');
            }
            lemma_scan_end_at(s, k + 2, f, '>');
            if n.len() > 0 {
                lemma_holds_at_char(s, p + 1, n, 0);
            }
            assert(canonical(t.children));
            lemma_read_from(s, b, t.children, 0);
            assert(t.children.subrange(0, t.children.len() as int) =~= t.children);
        },
    }
}

proof fn lemma_read_from(s: Seq<char>, p: int, ts: Seq<Tree>, i: int)
    requires
        canonical(ts),
        0 <= i <= ts.len(),
        holds_at(s, p, markup_from(ts, i)),
        p + markup_from(ts, i).len() == s.len() || at_close(s, p + markup_from(ts, i).len()),
    ensures
        parse_siblings(s, p) == Ok::<(Seq<Tree>, int), Fault>(
            (ts.subrange(i, ts.len() as int), p + markup_from(ts, i).len()),
        ),
    decreases ts, ts.len() - i,
{
    if i == ts.len() {
        assert(ts.subrange(i, ts.len() as int) =~= Seq::<Tree>::empty());
    } else {
        let t = ts[i];
        let m = markup_of(t);
        let rest = markup_from(ts, i + 1);
        let e = p + m.len();
        assert(markup_from(ts, i) =~= m + rest);
        assert(markup_from(ts, i).subrange(0, m.len() as int) =~= m);
        assert(markup_from(ts, i).subrange(m.len() as int, (m.len() + rest.len()) as int) =~= rest);
        lemma_holds_at_part(s, p, markup_from(ts, i), 0, m.len() as int);
        lemma_holds_at_part(s, p, markup_from(ts, i), m.len() as int, (m.len() + rest.len()) as int);
        if i + 1 < ts.len() {
            let u = ts[i + 1];
            assert(!(is_text(ts[i]) && is_text(ts[i + 1])));
            if is_text(t) {
                assert(!is_text(u));
                assert(markup_of(u)[0] == '<');
                assert(rest =~= markup_of(u) + markup_from(ts, i + 2));
                lemma_holds_at_char(s, e, rest, 0);
            }
        }
        lemma_read_tree(s, p, t);
        lemma_read_from(s, e, ts, i + 1);
        lemma_skip_ws(s, p);
        assert(seq![t] + ts.subrange(i + 1, ts.len() as int) =~= ts.subrange(i, ts.len() as int));
    }
}

/// A document written as the canonical markup of canonical trees, that is
/// of properly nested tags whose opening and closing names match, parses,
/// and gives back exactly those trees with those names.
pub proof fn canonical_markup_reads_back(ts: Seq<Tree>)
    requires
        canonical(ts),
    ensures
        parse_document(markup_all(ts)) == Ok::<Seq<Tree>, Fault>(ts),
{
    let s = markup_all(ts);
    assert(s.subrange(0, s.len() as int) =~= s);
    lemma_read_from(s, 0, ts, 0);
    assert(ts.subrange(0, ts.len() as int) =~= ts);
}

/// Writing out what a parse yields and parsing that again gives the same
/// trees.
pub proof fn reparse_is_identity(s: Seq<char>, ts: Seq<Tree>)
    requires
        parse_document(s) == Ok::<Seq<Tree>, Fault>(ts),
    ensures
        parse_document(markup_all(ts)) == Ok::<Seq<Tree>, Fault>(ts),
{
    parsed_trees_are_canonical(s, ts);
    canonical_markup_reads_back(ts);
}

} // verus!
