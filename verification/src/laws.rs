//! Laws relating insertion and the two enumeration operations: the
//! enumeration lists exactly the stored words, each exactly once, and
//! prefix-scoped enumeration is full enumeration restricted to the
//! prefix.

use vstd::prelude::*;
use vstd::seq_lib::lemma_no_dup_in_concat;
use vstd::seq_lib::lemma_seq_concat_contains_all_elements;
use vstd::seq_lib::to_multiset_contains;
use crate::trie::inserts;
use crate::trie::is_lower;
use crate::trie::lower_word;
use crate::trie::prepend_all;
use crate::trie::slot_of;
use crate::trie::with_prefix;
use crate::trie::Node;
use crate::trie::NodeList;
use crate::trie::ALPHABET;

verus! {

/// A word with a letter put in front is enumerated among `ws` prefixed
/// by that letter exactly when the rest of the word is in `ws`.
proof fn lemma_prepend_contains(c: char, ws: Seq<Seq<char>>, w: Seq<char>)
    ensures
        prepend_all(c, ws).contains(w) <==> (w.len() > 0 && w[0] == c && ws.contains(
            w.drop_first(),
        )),
{
    if prepend_all(c, ws).contains(w) {
        let i = choose|i: int|
            0 <= i < prepend_all(c, ws).len() && prepend_all(c, ws)[i] == w;
        assert(w == seq![c] + ws[i]);
        assert(ws[i] =~= w.drop_first());
    }
    if w.len() > 0 && w[0] == c && ws.contains(w.drop_first()) {
        let i = choose|i: int| 0 <= i < ws.len() && ws[i] == w.drop_first();
        assert(prepend_all(c, ws)[i] == seq![c] + ws[i]);
        assert(seq![c] + ws[i] =~= w);
        assert(prepend_all(c, ws).contains(w));
    }
}

/// Every word enumerated from slots `j..26` is non-empty, lowercase,
/// and begins with a letter whose slot lies in `j..26`.
proof fn lemma_from_shape(l: NodeList, j: int)
    requires
        l.wf(),
        0 <= j <= ALPHABET,
    ensures
        forall|i: int|
            0 <= i < l.word_seq_from(j).len() ==> {
                let w = #[trigger] l.word_seq_from(j)[i];
                w.len() > 0 && is_lower(w[0]) && j <= slot_of(w[0]) < ALPHABET
            },
    decreases 27int - j,
{
    if j < ALPHABET {
        lemma_from_shape(l, j + 1);
        let head: Seq<Seq<char>> = match l.nodes@[j] {
            Some(n) => n.word_seq(),
            None => Seq::empty(),
        };
        let tail = l.word_seq_from(j + 1);
        assert(l.word_seq_from(j) == head + tail);
        if let Some(n) = l.nodes@[j] {
            n.lemma_word_shape();
        }
        assert forall|i: int| 0 <= i < l.word_seq_from(j).len() implies {
            let w = #[trigger] l.word_seq_from(j)[i];
            w.len() > 0 && is_lower(w[0]) && j <= slot_of(w[0]) < ALPHABET
        } by {
            if i < head.len() {
                assert(l.word_seq_from(j)[i] == head[i]);
            } else {
                assert(l.word_seq_from(j)[i] == tail[i - head.len()]);
            }
        }
    }
}

/// A word is enumerated from slots `j..26` exactly when the slot of its
/// first letter lies in that range, holds a node, and that node
/// enumerates the word.
proof fn lemma_from_contains(l: NodeList, j: int, w: Seq<char>)
    requires
        l.wf(),
        0 <= j <= ALPHABET,
    ensures
        l.word_seq_from(j).contains(w) <==> (w.len() > 0 && j <= slot_of(w[0]) < ALPHABET
            && l.nodes@[slot_of(w[0])] is Some && (*l.nodes@[slot_of(w[0])]->0).word_seq().contains(
            w,
        )),
    decreases 27int - j,
{
    broadcast use lemma_seq_concat_contains_all_elements;

    if j < ALPHABET {
        lemma_from_contains(l, j + 1, w);
        let head: Seq<Seq<char>> = match l.nodes@[j] {
            Some(n) => n.word_seq(),
            None => Seq::empty(),
        };
        let tail = l.word_seq_from(j + 1);
        assert(l.word_seq_from(j) == head + tail);
        if let Some(n) = l.nodes@[j] {
            n.lemma_word_shape();
            if head.contains(w) {
                let i = choose|i: int| 0 <= i < head.len() && head[i] == w;
                assert(w.len() > 0 && w[0] == n.value);
            }
            if w.len() > 0 && slot_of(w[0]) == j && (*l.nodes@[j]->0).word_seq().contains(w) {
                assert(head.contains(w));
            }
        }
    }
}

/// Full enumeration is sound and complete for membership: a trie
/// enumerates a word exactly when it stores it.
pub proof fn lemma_enumeration_complete(l: NodeList, w: Seq<char>)
    requires
        l.wf(),
    ensures
        l.word_seq().contains(w) <==> l.has_word(w),
    decreases w.len(),
{
    broadcast use lemma_seq_concat_contains_all_elements;

    lemma_from_contains(l, 0, w);
    assert(l.word_seq() == l.word_seq_from(0));
    if w.len() > 0 {
        let k = slot_of(w[0]);
        if is_lower(w[0]) && l.nodes@[k] is Some {
            let n = *l.nodes@[k]->0;
            let cws = n.children.word_seq();
            let head: Seq<Seq<char>> = if n.terminal {
                seq![seq![n.value]]
            } else {
                Seq::empty()
            };
            assert(n.word_seq() == head + prepend_all(n.value, cws));
            lemma_prepend_contains(n.value, cws, w);
            assert(n.value == w[0]) by {
                assert(n.value as int == w[0] as int);
            }
            if head.contains(w) {
                assert(w == head[choose|i: int| 0 <= i < head.len() && head[i] == w]);
            }
            if w.len() == 1 {
                lemma_from_shape(n.children, 0);
                assert(cws == n.children.word_seq_from(0));
                if cws.contains(w.drop_first()) {
                    let i = cws.lemma_contains_to_index(w.drop_first());
                    assert(cws[i].len() > 0);
                }
                assert(!cws.contains(w.drop_first()));
                if n.terminal {
                    assert(head[0] == seq![n.value]);
                    assert(w =~= seq![n.value]);
                    assert(head.contains(w));
                }
            } else {
                lemma_enumeration_complete(n.children, w.drop_first());
                assert(!(n.terminal && w == seq![n.value]));
            }
        }
    }
}

/// Full enumeration never lists a word twice.
pub proof fn lemma_enumeration_no_duplicates(l: NodeList)
    requires
        l.wf(),
    ensures
        l.word_seq().no_duplicates(),
{
    lemma_from_no_dup(l, 0);
    assert(l.word_seq() == l.word_seq_from(0));
}

proof fn lemma_node_no_dup(n: Node)
    requires
        n.wf(),
    ensures
        n.word_seq().no_duplicates(),
    decreases n, 28int,
{
    lemma_from_no_dup(n.children, 0);
    let cws = n.children.word_seq();
    let below = prepend_all(n.value, cws);
    assert(cws.no_duplicates());
    assert forall|i: int, j: int|
        0 <= i < below.len() && 0 <= j < below.len() && i != j implies below[i] != below[j] by {
        if below[i] == below[j] {
            assert(below[i] == seq![n.value] + cws[i]);
            assert(below[j] == seq![n.value] + cws[j]);
            assert(cws[i].len() == cws[j].len());
            assert(cws[i] =~= cws[j]) by {
                assert forall|t: int| 0 <= t < cws[i].len() implies cws[i][t] == cws[j][t] by {
                    assert((seq![n.value] + cws[i])[t + 1] == cws[i][t]);
                    assert((seq![n.value] + cws[j])[t + 1] == cws[j][t]);
                }
            }
        }
    }
    if n.terminal {
        lemma_from_shape(n.children, 0);
        lemma_no_dup_in_concat(seq![seq![n.value]], below);
        assert(n.word_seq() == seq![seq![n.value]] + below);
    } else {
        assert(n.word_seq() == below);
    }
}

proof fn lemma_from_no_dup(l: NodeList, j: int)
    requires
        l.wf(),
        0 <= j <= ALPHABET,
    ensures
        l.word_seq_from(j).no_duplicates(),
    decreases l, 27int - j,
{
    if j < ALPHABET {
        lemma_from_no_dup(l, j + 1);
        let tail = l.word_seq_from(j + 1);
        match l.nodes@[j] {
            Some(n) => {
                assert(decreases_to!(l => l.nodes));
                assert(decreases_to!(l.nodes => l.nodes@[j]));
                assert(decreases_to!(l => *n));
                lemma_node_no_dup(*n);
                n.lemma_word_shape();
                lemma_from_shape(l, j + 1);
                lemma_no_dup_in_concat(n.word_seq(), tail);
                assert(l.word_seq_from(j) == n.word_seq() + tail);
            },
            None => {
                assert(l.word_seq_from(j) =~= tail);
            },
        }
    }
}

/// Strict lexicographic order on words: `a` comes before `b` when they
/// agree up to some position and `a` either ends there or has the
/// smaller letter.
pub open spec fn lex_lt(a: Seq<char>, b: Seq<char>) -> bool
    decreases a.len(),
{
    b.len() > 0 && (a.len() == 0 || a[0] < b[0] || (a[0] == b[0] && lex_lt(
        a.drop_first(),
        b.drop_first(),
    )))
}

/// The words of `ws` are in strictly increasing lexicographic order.
pub open spec fn lex_sorted(ws: Seq<Seq<char>>) -> bool {
    forall|i: int, j: int| 0 <= i < j < ws.len() ==> lex_lt(ws[i], ws[j])
}

/// Putting the same letter in front of two words keeps their order.
proof fn lemma_lex_prepend(c: char, a: Seq<char>, b: Seq<char>)
    ensures
        lex_lt(seq![c] + a, seq![c] + b) <==> lex_lt(a, b),
{
    assert((seq![c] + a).drop_first() =~= a);
    assert((seq![c] + b).drop_first() =~= b);
}

/// Concatenating two sorted runs is sorted when every word of the first
/// run comes before every word of the second.
proof fn lemma_lex_sorted_concat(a: Seq<Seq<char>>, b: Seq<Seq<char>>)
    requires
        lex_sorted(a),
        lex_sorted(b),
        forall|i: int, j: int| 0 <= i < a.len() && 0 <= j < b.len() ==> lex_lt(a[i], b[j]),
    ensures
        lex_sorted(a + b),
{
    assert forall|i: int, j: int| 0 <= i < j < (a + b).len() implies lex_lt(
        (a + b)[i],
        (a + b)[j],
    ) by {
        if j < a.len() {
            assert((a + b)[i] == a[i] && (a + b)[j] == a[j]);
        } else if i >= a.len() {
            assert((a + b)[i] == b[i - a.len()] && (a + b)[j] == b[j - a.len()]);
        } else {
            assert((a + b)[i] == a[i] && (a + b)[j] == b[j - a.len()]);
        }
    }
}

proof fn lemma_node_sorted(n: Node)
    requires
        n.wf(),
    ensures
        lex_sorted(n.word_seq()),
    decreases n, 28int,
{
    lemma_from_sorted(n.children, 0);
    lemma_from_shape(n.children, 0);
    let cws = n.children.word_seq();
    let below = prepend_all(n.value, cws);
    assert(cws == n.children.word_seq_from(0));
    assert forall|i: int, j: int| 0 <= i < j < below.len() implies lex_lt(
        below[i],
        below[j],
    ) by {
        assert(below[i] == seq![n.value] + cws[i]);
        assert(below[j] == seq![n.value] + cws[j]);
        lemma_lex_prepend(n.value, cws[i], cws[j]);
    }
    if n.terminal {
        let head = seq![seq![n.value]];
        assert forall|i: int, j: int|
            0 <= i < head.len() && 0 <= j < below.len() implies lex_lt(head[i], below[j]) by {
            assert(head[i] == seq![n.value]);
            assert(below[j] == seq![n.value] + cws[j]);
            assert(cws[j].len() > 0);
            assert((seq![n.value] + cws[j]).drop_first() =~= cws[j]);
            assert(seq![n.value].drop_first() =~= Seq::<char>::empty());
            assert(lex_lt(Seq::<char>::empty(), cws[j]));
            assert(lex_lt(seq![n.value], seq![n.value] + cws[j]));
        }
        lemma_lex_sorted_concat(head, below);
        assert(n.word_seq() == head + below);
    } else {
        assert(n.word_seq() == below);
    }
}

proof fn lemma_from_sorted(l: NodeList, j: int)
    requires
        l.wf(),
        0 <= j <= ALPHABET,
    ensures
        lex_sorted(l.word_seq_from(j)),
    decreases l, 27int - j,
{
    if j < ALPHABET {
        lemma_from_sorted(l, j + 1);
        let tail = l.word_seq_from(j + 1);
        match l.nodes@[j] {
            Some(n) => {
                assert(decreases_to!(l => l.nodes));
                assert(decreases_to!(l.nodes => l.nodes@[j]));
                assert(decreases_to!(l => *n));
                lemma_node_sorted(*n);
                n.lemma_word_shape();
                lemma_from_shape(l, j + 1);
                let head = n.word_seq();
                assert forall|a: int, b: int|
                    0 <= a < head.len() && 0 <= b < tail.len() implies lex_lt(
                    head[a],
                    tail[b],
                ) by {
                    assert(head[a][0] == n.value);
                    assert(slot_of(n.value) == j);
                    assert(j < slot_of(tail[b][0]));
                    assert(head[a][0] < tail[b][0]) by {
                        assert((head[a][0] as int) < (tail[b][0] as int));
                    }
                }
                lemma_lex_sorted_concat(head, tail);
                assert(l.word_seq_from(j) == head + tail);
            },
            None => {
                assert(l.word_seq_from(j) =~= tail);
            },
        }
    }
}

/// Full enumeration lists the stored words in strictly increasing
/// lexicographic order: the order is a deterministic function of the
/// ascending slot scan, and no word appears twice.
pub proof fn lemma_enumeration_sorted(l: NodeList)
    requires
        l.wf(),
    ensures
        lex_sorted(l.word_seq()),
{
    lemma_from_sorted(l, 0);
    assert(l.word_seq() == l.word_seq_from(0));
}

/// Insert/contains roundtrip: after a word is inserted, full
/// enumeration lists it exactly once, and enumeration under the word
/// itself as prefix lists it.
pub proof fn lemma_insert_roundtrip(pre: NodeList, post: NodeList, w: Seq<char>)
    requires
        pre.wf(),
        lower_word(w),
        inserts(pre, post, w),
    ensures
        post.word_seq().to_multiset().count(w) == 1,
        post.word_seq().filter(with_prefix(w)).contains(w),
{
    broadcast use to_multiset_contains;

    assert(post.has_word(w));
    lemma_enumeration_complete(post, w);
    lemma_enumeration_no_duplicates(post);
    let ws = post.word_seq();
    ws.lemma_multiset_has_no_duplicates();
    assert(ws.to_multiset().count(w) > 0);
    let i = ws.lemma_contains_to_index(w);
    assert(with_prefix(w)(ws[i])) by {
        assert(w =~= w.subrange(0, w.len() as int));
    }
    ws.lemma_filter_contains(with_prefix(w), i);
}

/// Two well-formed tries that store the same words enumerate the same
/// multiset of words.
pub proof fn lemma_same_words_same_multiset(a: NodeList, b: NodeList)
    requires
        a.wf(),
        b.wf(),
        forall|w: Seq<char>| a.has_word(w) <==> b.has_word(w),
    ensures
        a.word_seq().to_multiset() == b.word_seq().to_multiset(),
{
    broadcast use to_multiset_contains;

    lemma_enumeration_no_duplicates(a);
    lemma_enumeration_no_duplicates(b);
    let wa = a.word_seq();
    let wb = b.word_seq();
    wa.lemma_multiset_has_no_duplicates();
    wb.lemma_multiset_has_no_duplicates();
    assert forall|w: Seq<char>|
        #[trigger] wa.to_multiset().count(w) == wb.to_multiset().count(w) by {
        lemma_enumeration_complete(a, w);
        lemma_enumeration_complete(b, w);
        if wa.contains(w) {
            assert(wa.to_multiset().count(w) == 1);
            assert(wb.to_multiset().count(w) == 1);
        } else {
            assert(wa.to_multiset().count(w) == 0);
            assert(wb.to_multiset().count(w) == 0);
        }
    }
    assert(wa.to_multiset() =~= wb.to_multiset());
}

/// Idempotence: inserting a word that was just inserted leaves the
/// enumerated multiset of words unchanged.
pub proof fn lemma_insert_idempotent(pre: NodeList, mid: NodeList, post: NodeList, w: Seq<char>)
    requires
        pre.wf(),
        inserts(pre, mid, w),
        inserts(mid, post, w),
    ensures
        post.word_seq().to_multiset() == mid.word_seq().to_multiset(),
{
    assert(forall|v: Seq<char>| mid.has_word(v) <==> post.has_word(v));
    lemma_same_words_same_multiset(post, mid);
}

/// Prefix-superset: every word of a prefix enumeration begins with the
/// prefix, and the prefix enumeration holds exactly the fully
/// enumerated words that begin with it.
pub proof fn lemma_prefix_superset(l: NodeList, p: Seq<char>)
    requires
        l.wf(),
    ensures
        forall|i: int|
            0 <= i < l.word_seq().filter(with_prefix(p)).len() ==> p.is_prefix_of(
                #[trigger] l.word_seq().filter(with_prefix(p))[i],
            ),
        forall|w: Seq<char>|
            #[trigger] l.word_seq().filter(with_prefix(p)).contains(w) <==> (
            l.word_seq().contains(w) && p.is_prefix_of(w)),
{
    let ws = l.word_seq();
    let found = ws.filter(with_prefix(p));
    assert forall|i: int| 0 <= i < found.len() implies p.is_prefix_of(#[trigger] found[i]) by {
        ws.lemma_filter_pred(with_prefix(p), i);
    }
    assert forall|w: Seq<char>|
        #[trigger] found.contains(w) <==> (ws.contains(w) && p.is_prefix_of(w)) by {
        if found.contains(w) {
            ws.lemma_filter_contains_rev(with_prefix(p), w);
            let i = found.lemma_contains_to_index(w);
            ws.lemma_filter_pred(with_prefix(p), i);
        }
        if ws.contains(w) && p.is_prefix_of(w) {
            let i = ws.lemma_contains_to_index(w);
            ws.lemma_filter_contains(with_prefix(p), i);
        }
    }
}

/// A trie that enumerates nothing enumerates nothing under any prefix
/// either.
pub proof fn lemma_empty_prefix_enumeration(l: NodeList, p: Seq<char>)
    requires
        l.wf(),
        l.word_seq() == Seq::<Seq<char>>::empty(),
    ensures
        l.word_seq().filter(with_prefix(p)) == Seq::<Seq<char>>::empty(),
{
    reveal(Seq::filter);
}

/// Non-destructive promotion: inserting a word removes nothing — every
/// word stored before is still stored and still enumerated, and so is
/// the inserted word.
pub proof fn lemma_insert_preserves(pre: NodeList, post: NodeList, w: Seq<char>, v: Seq<char>)
    requires
        pre.wf(),
        inserts(pre, post, w),
        pre.has_word(v),
    ensures
        post.has_word(v),
        post.has_word(w),
        post.word_seq().contains(v),
        post.word_seq().contains(w),
{
    lemma_enumeration_complete(post, v);
    lemma_enumeration_complete(post, w);
}

} // verus!
