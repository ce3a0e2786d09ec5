//! The trie's node representation, its mathematical model, and the three
//! operations: insertion, full enumeration, and prefix-scoped enumeration.

use vstd::prelude::*;
use vstd::string::*;

verus! {

/// Number of slots in a `NodeList`: one per lowercase ASCII letter.
pub const ALPHABET: usize = 26;

/// An ordered collection of 26 optional child slots, one per lowercase
/// letter: the children of some prefix.  Slot `i` may only hold a node
/// whose letter is `'a' + i`.
pub struct NodeList {
    pub nodes: Vec<Option<Box<Node>>>,
}

/// One letter position along a path from the root.  `terminal` is true
/// iff the path from the root to and including this node spells a
/// complete stored word.
pub struct Node {
    pub value: char,
    pub children: NodeList,
    pub terminal: bool,
}

/// A lowercase ASCII letter, the only characters a stored word may hold.
pub open spec fn is_lower(c: char) -> bool {
    'a' <= c && c <= 'z'
}

/// Every character of `w` is a lowercase ASCII letter.
pub open spec fn lower_seq(w: Seq<char>) -> bool {
    forall|i: int| 0 <= i < w.len() ==> is_lower(#[trigger] w[i])
}

/// A well-formed word: non-empty and all lowercase ASCII.
pub open spec fn lower_word(w: Seq<char>) -> bool {
    w.len() > 0 && lower_seq(w)
}

/// The slot index a letter occupies: 0 for 'a' through 25 for 'z'.
pub open spec fn slot_of(c: char) -> int {
    c as int - 'a' as int
}

impl NodeList {
    /// Structural invariant: exactly 26 slots, and slot `i` holds only a
    /// well-formed node whose letter is the `i`-th lowercase letter.
    pub open spec fn wf(self) -> bool
        decreases self,
    {
        &&& self.nodes@.len() == ALPHABET
        &&& forall|i: int|
            0 <= i < self.nodes@.len() ==> match #[trigger] self.nodes@[i] {
                Some(n) => n.wf() && slot_of(n.value) == i,
                None => true,
            }
    }

    /// Membership model: `w` is a stored word of the subtree rooted at
    /// this list of children.
    pub open spec fn has_word(self, w: Seq<char>) -> bool
        decreases w.len(),
    {
        &&& w.len() > 0
        &&& is_lower(w[0])
        &&& match self.nodes@[slot_of(w[0])] {
            Some(n) => if w.len() == 1 {
                n.terminal
            } else {
                n.children.has_word(w.drop_first())
            },
            None => false,
        }
    }
}

impl Node {
    /// Structural invariant: the letter is lowercase and the children are
    /// well formed.
    pub open spec fn wf(self) -> bool
        decreases self,
    {
        is_lower(self.value) && self.children.wf()
    }

    /// Enumeration model: the words of the subtree rooted at this node,
    /// each beginning with this node's letter, in depth-first order.
    pub open spec fn word_seq(self) -> Seq<Seq<char>>
        decreases self, 0int,
    {
        let below = prepend_all(self.value, self.children.word_seq());
        if self.terminal {
            seq![seq![self.value]] + below
        } else {
            below
        }
    }
}

/// Every word of `ws` with the prefix `p` put in front.
pub open spec fn under(p: Seq<char>, ws: Seq<Seq<char>>) -> Seq<Seq<char>> {
    ws.map_values(|w: Seq<char>| p + w)
}

/// Every word of `ws` with the letter `c` put in front.
pub open spec fn prepend_all(c: char, ws: Seq<Seq<char>>) -> Seq<Seq<char>> {
    under(seq![c], ws)
}

/// The contents of a vector of strings, as a sequence of character
/// sequences.
pub open spec fn views(v: Seq<String>) -> Seq<Seq<char>> {
    v.map_values(|s: String| s@)
}

proof fn lemma_under_add(p: Seq<char>, a: Seq<Seq<char>>, b: Seq<Seq<char>>)
    ensures
        under(p, a + b) == under(p, a) + under(p, b),
{
    assert(under(p, a + b) =~= under(p, a) + under(p, b));
}

proof fn lemma_under_nest(p: Seq<char>, c: char, ws: Seq<Seq<char>>)
    ensures
        under(p, prepend_all(c, ws)) == under(p + seq![c], ws),
{
    assert forall|i: int| 0 <= i < ws.len() implies under(p, prepend_all(c, ws))[i] == under(
        p + seq![c],
        ws,
    )[i] by {
        assert(p + (seq![c] + ws[i]) =~= (p + seq![c]) + ws[i]);
    }
    assert(under(p, prepend_all(c, ws)) =~= under(p + seq![c], ws));
}

proof fn lemma_under_empty_prefix(ws: Seq<Seq<char>>)
    ensures
        under(Seq::empty(), ws) == ws,
{
    assert forall|i: int| 0 <= i < ws.len() implies under(Seq::<char>::empty(), ws)[i] == ws[i] by {
        assert(Seq::<char>::empty() + ws[i] =~= ws[i]);
    }
    assert(under(Seq::empty(), ws) =~= ws);
}

impl NodeList {
    /// Enumeration model: the words of this subtree, in depth-first order,
    /// scanning slots in ascending letter order.
    pub open spec fn word_seq(self) -> Seq<Seq<char>>
        decreases self, 28int,
    {
        self.word_seq_from(0)
    }

    /// The words contributed by slots `i..26`, in depth-first order.
    pub open spec fn word_seq_from(self, i: int) -> Seq<Seq<char>>
        decreases self, 27int - i,
            via Self::word_seq_from_decreases
    {
        if 0 <= i < ALPHABET && i < self.nodes@.len() {
            (match self.nodes@[i] {
                Some(n) => n.word_seq(),
                None => Seq::empty(),
            }) + self.word_seq_from(i + 1)
        } else {
            Seq::empty()
        }
    }

    #[via_fn]
    proof fn word_seq_from_decreases(self, i: int) {
        if 0 <= i < ALPHABET && i < self.nodes@.len() {
            assert(decreases_to!(self => self.nodes));
            assert(decreases_to!(self.nodes => self.nodes@[i]));
            if let Some(n) = self.nodes@[i] {
                assert(decreases_to!(self => *n));
            }
        }
    }
}

/// A list whose 26 slots are all empty.
pub open spec fn empty_list(l: NodeList) -> bool {
    l.nodes@.len() == ALPHABET && forall|i: int|
        0 <= i < l.nodes@.len() ==> (#[trigger] l.nodes@[i]) is None
}

/// An empty list is well formed, stores no word, and enumerates nothing.
proof fn lemma_empty_list(l: NodeList)
    requires
        empty_list(l),
    ensures
        l.wf(),
        forall|w: Seq<char>| !l.has_word(w),
        l.word_seq() == Seq::<Seq<char>>::empty(),
{
    assert forall|w: Seq<char>| !l.has_word(w) by {
        if w.len() > 0 && is_lower(w[0]) {
            assert(l.nodes@[slot_of(w[0])] is None);
        }
    }
    lemma_empty_word_seq_from(l, 0);
}

proof fn lemma_empty_word_seq_from(l: NodeList, i: int)
    requires
        empty_list(l),
    ensures
        l.word_seq_from(i) == Seq::<Seq<char>>::empty(),
    decreases 27int - i,
{
    if 0 <= i < ALPHABET {
        lemma_empty_word_seq_from(l, i + 1);
        assert(l.word_seq_from(i) =~= Seq::<Seq<char>>::empty());
    }
}

/// The slot a letter occupies, as a vector index.
fn slot_index(c: char) -> (i: usize)
    requires
        is_lower(c),
    ensures
        i == slot_of(c),
        i < ALPHABET,
{
    (c as u32 - 'a' as u32) as usize
}

impl NodeList {
    /// A list of 26 empty slots: the children of a prefix nothing has
    /// been stored under yet.
    pub fn new() -> (r: NodeList)
        ensures
            r.wf(),
            empty_list(r),
            forall|w: Seq<char>| !r.has_word(w),
            r.word_seq() == Seq::<Seq<char>>::empty(),
    {
        let mut nodes: Vec<Option<Box<Node>>> = Vec::new();
        let mut i: usize = 0;
        while i < ALPHABET
            invariant
                i <= ALPHABET,
                nodes@.len() == i,
                forall|j: int| 0 <= j < i ==> (#[trigger] nodes@[j]) is None,
            decreases ALPHABET - i,
        {
            nodes.push(None);
            i += 1;
        }
        let r = NodeList { nodes };
        proof {
            lemma_empty_list(r);
        }
        r
    }

    /// Ensure the slot for `c` holds a node, creating it if absent; a node
    /// already terminal stays terminal, otherwise its flag is raised to
    /// `terminal`.  No child of an existing node is touched.
    pub fn add_char(&mut self, c: char, terminal: bool)
        requires
            old(self).wf(),
            is_lower(c),
        ensures
            final(self).wf(),
            final(self).nodes@.len() == ALPHABET,
            forall|j: int|
                0 <= j < ALPHABET && j != slot_of(c) ==> final(self).nodes@[j] == old(
                    self,
                ).nodes@[j],
            final(self).nodes@[slot_of(c)] is Some,
            ({
                let n = *final(self).nodes@[slot_of(c)]->0;
                &&& n.value == c
                &&& match old(self).nodes@[slot_of(c)] {
                    Some(m) => n.terminal == (m.terminal || terminal) && n.children
                        == m.children,
                    None => n.terminal == terminal && empty_list(n.children),
                }
            }),
    {
        let idx = slot_index(c);
        let slot = &mut self.nodes[idx];
        match slot {
            Some(child) => {
                if !child.terminal {
                    child.terminal = terminal;
                }
            },
            None => {
                *slot = Some(Box::new(Node::new(c, terminal)));
            },
        }
    }
}

impl NodeList {
    /// Insert `word` into the trie: afterwards the stored words are
    /// exactly the old ones together with `word`, and nothing off the
    /// word's path is touched.  Insertion never removes a word and
    /// never clears a terminal flag.
    pub fn add_word(&mut self, word: &str)
        requires
            old(self).wf(),
            lower_word(word@),
        ensures
            final(self).wf(),
            inserts(*old(self), *final(self), word@),
            path_update(*old(self), *final(self), word@),
    {
        self.add_word_at(word, 0);
        proof {
            assert(word@.skip(0) =~= word@);
        }
    }

    /// Insert the suffix `word[i..]` below this list of children.
    fn add_word_at(&mut self, word: &str, i: usize)
        requires
            old(self).wf(),
            lower_seq(word@),
            i < word@.len(),
        ensures
            final(self).wf(),
            forall|w: Seq<char>|
                final(self).has_word(w) <==> (old(self).has_word(w) || w == word@.skip(
                    i as int,
                )),
            path_update(*old(self), *final(self), word@.skip(i as int)),
        decreases word@.len() - i,
    {
        let c = word.get_char(i);
        let len = word.unicode_len();
        let last = i + 1 == len;
        if last {
            self.add_char(c, true);
            proof {
                self.lemma_added_word(*old(self), word@, i as int);
            }
        } else {
            self.add_char(c, false);
            let ghost mid = *self;
            let idx = slot_index(c);
            let slot = &mut self.nodes[idx];
            match slot {
                Some(child) => {
                    child.children.add_word_at(word, i + 1);
                },
                None => {
                    // add_char has just filled this slot
                    proof {
                        assert(false);
                    }
                },
            }
            proof {
                self.lemma_added_step(*old(self), mid, word@, i as int);
            }
        }
    }

    /// After the final letter of a word is marked terminal, the stored
    /// words are the old ones plus that one-letter suffix.
    proof fn lemma_added_word(self, pre: NodeList, word: Seq<char>, i: int)
        requires
            pre.wf(),
            lower_seq(word),
            0 <= i < word.len(),
            i + 1 == word.len(),
            self.nodes@.len() == ALPHABET,
            forall|j: int|
                0 <= j < ALPHABET && j != slot_of(word[i]) ==> self.nodes@[j] == pre.nodes@[j],
            self.nodes@[slot_of(word[i])] is Some,
            ({
                let n = *self.nodes@[slot_of(word[i])]->0;
                &&& n.value == word[i]
                &&& n.wf()
                &&& n.terminal
                &&& match pre.nodes@[slot_of(word[i])] {
                    Some(m) => n.children == m.children,
                    None => empty_list(n.children),
                }
            }),
        ensures
            forall|w: Seq<char>| self.has_word(w) <==> (pre.has_word(w) || w == word.skip(i)),
            path_update(pre, self, word.skip(i)),
    {
        let c = word[i];
        let k = slot_of(c);
        let n = *self.nodes@[k]->0;
        assert(word.skip(i) =~= seq![c]);
        assert(path_update(pre, self, word.skip(i))) by {
            assert(word.skip(i)[0] == c);
            match pre.nodes@[k] {
                Some(m) => {
                    assert(n.value == m.value) by {
                        assert(m.value as int == c as int);
                    }
                },
                None => {
                    assert(fresh_path(n, word.skip(i)));
                },
            }
        }
        assert forall|w: Seq<char>| self.has_word(w) <==> (pre.has_word(w) || w == word.skip(i)) by {
            if w.len() == 0 || !is_lower(w[0]) {
                assert(!self.has_word(w));
                assert(!pre.has_word(w));
                assert(w != word.skip(i));
            } else if slot_of(w[0]) != k {
                assert(self.nodes@[slot_of(w[0])] == pre.nodes@[slot_of(w[0])]);
                assert(w != word.skip(i)) by {
                    assert(word.skip(i)[0] == c);
                }
            } else {
                assert(w[0] == c) by {
                    assert(w[0] as int == c as int);
                }
                if w.len() == 1 {
                    assert(w =~= word.skip(i));
                    assert(self.has_word(w));
                } else {
                    assert(self.has_word(w) <==> n.children.has_word(w.drop_first()));
                    match pre.nodes@[k] {
                        Some(m) => {
                            assert(pre.has_word(w) <==> m.children.has_word(w.drop_first()));
                        },
                        None => {
                            lemma_empty_list(n.children);
                            assert(!pre.has_word(w));
                        },
                    }
                    assert(w != word.skip(i));
                }
            }
        }
    }

    /// After descending one letter and inserting the rest of the word in
    /// the child, the stored words are the old ones plus the suffix.
    proof fn lemma_added_step(self, pre: NodeList, mid: NodeList, word: Seq<char>, i: int)
        requires
            pre.wf(),
            mid.wf(),
            lower_seq(word),
            0 <= i,
            i + 1 < word.len(),
            // how `mid` relates to `pre`: `add_char(word[i], false)`
            mid.nodes@.len() == ALPHABET,
            forall|j: int|
                0 <= j < ALPHABET && j != slot_of(word[i]) ==> mid.nodes@[j] == pre.nodes@[j],
            mid.nodes@[slot_of(word[i])] is Some,
            ({
                let m = *mid.nodes@[slot_of(word[i])]->0;
                &&& m.value == word[i]
                &&& match pre.nodes@[slot_of(word[i])] {
                    Some(p) => m.terminal == p.terminal && m.children == p.children,
                    None => !m.terminal && empty_list(m.children),
                }
            }),
            // how `self` relates to `mid`: the child's children changed
            self.nodes@.len() == ALPHABET,
            forall|j: int|
                0 <= j < ALPHABET && j != slot_of(word[i]) ==> self.nodes@[j] == mid.nodes@[j],
            self.nodes@[slot_of(word[i])] is Some,
            ({
                let m = *mid.nodes@[slot_of(word[i])]->0;
                let n = *self.nodes@[slot_of(word[i])]->0;
                &&& n.value == m.value
                &&& n.terminal == m.terminal
                &&& n.wf()
                &&& forall|w: Seq<char>|
                    n.children.has_word(w) <==> (m.children.has_word(w) || w == word.skip(i + 1))
                &&& path_update(m.children, n.children, word.skip(i + 1))
            }),
        ensures
            forall|w: Seq<char>| self.has_word(w) <==> (pre.has_word(w) || w == word.skip(i)),
            path_update(pre, self, word.skip(i)),
    {
        let c = word[i];
        let k = slot_of(c);
        let m = *mid.nodes@[k]->0;
        let n = *self.nodes@[k]->0;
        assert(word.skip(i)[0] == c);
        assert(word.skip(i).drop_first() =~= word.skip(i + 1));
        assert(path_update(pre, self, word.skip(i))) by {
            let w = word.skip(i);
            assert(w.len() == word.len() - i);
            match pre.nodes@[k] {
                Some(p) => {
                    assert(n.value == p.value) by {
                        assert(p.value as int == c as int);
                    }
                    assert(path_update(p.children, n.children, w.drop_first()));
                },
                None => {
                    // the fresh node below slot `k` spells exactly the suffix
                    let rest = w.drop_first();
                    assert(path_update(m.children, n.children, rest));
                    assert(fresh_path(n, w)) by {
                        assert(n.value == w[0]) by {
                            assert(m.value as int == c as int);
                        }
                        assert(n.children.nodes@.len() == ALPHABET);
                        assert forall|j: int|
                            0 <= j < ALPHABET && j != slot_of(rest[0]) implies (
                        #[trigger] n.children.nodes@[j]) is None by {
                            assert(n.children.nodes@[j] == m.children.nodes@[j]);
                        }
                        assert(n.children.nodes@[slot_of(rest[0])] is Some);
                        assert(m.children.nodes@[slot_of(rest[0])] is None);
                        assert(fresh_path(*n.children.nodes@[slot_of(rest[0])]->0, rest));
                    }
                },
            }
        }
        assert forall|w: Seq<char>| self.has_word(w) <==> (pre.has_word(w) || w == word.skip(i)) by {
            if w.len() == 0 || !is_lower(w[0]) {
                assert(!self.has_word(w));
                assert(!pre.has_word(w));
                assert(w != word.skip(i));
            } else if slot_of(w[0]) != k {
                assert(self.nodes@[slot_of(w[0])] == pre.nodes@[slot_of(w[0])]);
                assert(w != word.skip(i));
            } else {
                assert(w[0] == c) by {
                    assert(w[0] as int == c as int);
                }
                if w.len() == 1 {
                    assert(self.has_word(w) <==> n.terminal);
                    match pre.nodes@[k] {
                        Some(p) => {
                            assert(pre.has_word(w) <==> p.terminal);
                        },
                        None => {
                            assert(!pre.has_word(w));
                        },
                    }
                    assert(w != word.skip(i));
                } else {
                    assert(self.has_word(w) <==> n.children.has_word(w.drop_first()));
                    assert(n.children.has_word(w.drop_first()) <==> (m.children.has_word(
                        w.drop_first(),
                    ) || w.drop_first() == word.skip(i + 1)));
                    match pre.nodes@[k] {
                        Some(p) => {
                            assert(pre.has_word(w) <==> p.children.has_word(w.drop_first()));
                        },
                        None => {
                            lemma_empty_list(m.children);
                            assert(!pre.has_word(w));
                        },
                    }
                    assert(w == word.skip(i) <==> w.drop_first() == word.skip(i + 1)) by {
                        if w.drop_first() == word.skip(i + 1) {
                            assert forall|j: int| 0 <= j < w.len() implies w[j] == word.skip(i)[j]
                            by {
                                if j > 0 {
                                    assert(w[j] == w.drop_first()[j - 1]);
                                    assert(word.skip(i)[j] == word.skip(i + 1)[j - 1]);
                                }
                            }
                            assert(w =~= word.skip(i));
                        } else {
                            assert(w != word.skip(i));
                        }
                    }
                }
            }
        }
    }
}

/// Relies on `String::push`: appends the given character to the end of
/// the string.
#[verifier::external_body]
fn push_char(s: &mut String, c: char)
    ensures
        final(s)@ == old(s)@.push(c),
{
    s.push(c);
}

/// Relies on `String::pop`: removes the last character from the string
/// and returns it, or returns `None` when the string is empty.
#[verifier::external_body]
fn pop_char(s: &mut String) -> (r: Option<char>)
    ensures
        old(s)@.len() == 0 ==> final(s)@ == old(s)@ && r is None,
        old(s)@.len() > 0 ==> final(s)@ == old(s)@.drop_last() && r == Some(old(s)@.last()),
{
    s.pop()
}

impl NodeList {
    /// Append to `out` every word of this subtree, each preceded by the
    /// path `buf`, scanning slots in ascending letter order.  The buffer
    /// is handed back as it came.
    fn collect_words(&self, buf: &mut String, out: &mut Vec<String>)
        requires
            self.wf(),
        ensures
            final(buf)@ == old(buf)@,
            views(final(out)@) == views(old(out)@) + under(old(buf)@, self.word_seq()),
        decreases *self, 1int,
    {
        let ghost buf0 = old(buf)@;
        let ghost out0 = views(old(out)@);
        let mut i: usize = 0;
        proof {
            assert(self.word_seq() == self.word_seq_from(0));
        }
        while i < ALPHABET
            invariant
                self.wf(),
                i <= ALPHABET,
                buf@ == buf0,
                out0 + under(buf0, self.word_seq()) == views(out@) + under(
                    buf0,
                    self.word_seq_from(i as int),
                ),
            decreases ALPHABET - i,
        {
            let ghost prev = views(out@);
            match &self.nodes[i] {
                Some(child) => {
                    proof {
                        assert(decreases_to!(*self => self.nodes));
                        assert(decreases_to!(self.nodes => self.nodes@[i as int]));
                        assert(decreases_to!(*self => **child));
                    }
                    child.collect_from(buf, out);
                    proof {
                        lemma_under_add(
                            buf0,
                            child.word_seq(),
                            self.word_seq_from(i as int + 1),
                        );
                        assert(self.word_seq_from(i as int) == child.word_seq()
                            + self.word_seq_from(i as int + 1));
                        assert(prev + (under(buf0, child.word_seq()) + under(
                            buf0,
                            self.word_seq_from(i as int + 1),
                        )) =~= (prev + under(buf0, child.word_seq())) + under(
                            buf0,
                            self.word_seq_from(i as int + 1),
                        ));
                    }
                },
                None => {
                    proof {
                        assert(self.word_seq_from(i as int) =~= self.word_seq_from(i as int + 1));
                    }
                },
            }
            i += 1;
        }
        proof {
            assert(self.word_seq_from(ALPHABET as int) == Seq::<Seq<char>>::empty());
            assert(views(out@) + under(buf0, Seq::empty()) =~= views(out@));
            assert(views(out@) =~= out0 + under(buf0, self.word_seq()));
        }
    }
}

impl Node {
    /// Append to `out` every word of the subtree rooted at this node,
    /// `buf` holding the path from the root to this node's parent.  The
    /// buffer is handed back as it came.
    fn collect_from(&self, buf: &mut String, out: &mut Vec<String>)
        requires
            self.wf(),
        ensures
            final(buf)@ == old(buf)@,
            views(final(out)@) == views(old(out)@) + under(old(buf)@, self.word_seq()),
        decreases *self, 0int,
    {
        let ghost buf0 = old(buf)@;
        let ghost out0 = views(old(out)@);
        push_char(buf, self.value);
        if self.terminal {
            let w = buf.clone();
            out.push(w);
            proof {
                assert(views(out@) =~= out0 + seq![buf0.push(self.value)]);
            }
        }
        self.children.collect_words(buf, out);
        let _ = pop_char(buf);
        proof {
            assert(buf@ =~= buf0);
            let cws = self.children.word_seq();
            lemma_under_nest(buf0, self.value, cws);
            assert(buf0 + seq![self.value] =~= buf0.push(self.value));
            if self.terminal {
                lemma_under_add(buf0, seq![seq![self.value]], prepend_all(self.value, cws));
                assert(under(buf0, seq![seq![self.value]]) =~= seq![buf0.push(self.value)]) by {
                    assert(buf0 + seq![self.value] =~= buf0.push(self.value));
                }
                assert(views(out@) =~= out0 + under(buf0, self.word_seq()));
            } else {
                assert(views(out@) =~= out0 + under(buf0, self.word_seq()));
            }
        }
    }
}

impl NodeList {
    /// Every word currently stored, in depth-first ascending-letter
    /// order: exactly the enumeration model of this trie.
    pub fn get_all_words(&self) -> (r: Vec<String>)
        requires
            self.wf(),
        ensures
            views(r@) == self.word_seq(),
    {
        let mut out: Vec<String> = Vec::new();
        let mut buf = String::new();
        self.collect_words(&mut buf, &mut out);
        proof {
            lemma_under_empty_prefix(self.word_seq());
            assert(views(Seq::<String>::empty()) + self.word_seq() =~= self.word_seq());
        }
        out
    }
}

impl Node {
    /// Every stored word of the subtree rooted at this node, each
    /// beginning with this node's letter.
    pub fn words_from(&self) -> (r: Vec<String>)
        requires
            self.wf(),
        ensures
            views(r@) == self.word_seq(),
    {
        let mut out: Vec<String> = Vec::new();
        let mut buf = String::new();
        self.collect_from(&mut buf, &mut out);
        proof {
            lemma_under_empty_prefix(self.word_seq());
            assert(views(Seq::<String>::empty()) + self.word_seq() =~= self.word_seq());
        }
        out
    }
}

/// How insertion changes the stored words: afterwards the trie stores
/// exactly the words it stored before, together with `word`.
pub open spec fn inserts(pre: NodeList, post: NodeList, word: Seq<char>) -> bool {
    &&& post.wf()
    &&& forall|w: Seq<char>| post.has_word(w) <==> (pre.has_word(w) || w == word)
}

/// The subtree of a freshly created node: it spells exactly `word` and
/// nothing else — one node per remaining letter, only the last of them
/// terminal, every other slot empty.
pub open spec fn fresh_path(n: Node, word: Seq<char>) -> bool
    decreases word.len(),
{
    &&& word.len() > 0
    &&& n.value == word[0]
    &&& n.terminal == (word.len() == 1)
    &&& n.children.nodes@.len() == ALPHABET
    &&& if word.len() == 1 {
        empty_list(n.children)
    } else {
        let rest = word.drop_first();
        &&& forall|j: int|
            0 <= j < ALPHABET && j != slot_of(rest[0]) ==> (#[trigger] n.children.nodes@[j])
                is None
        &&& n.children.nodes@[slot_of(rest[0])] is Some
        &&& fresh_path(*n.children.nodes@[slot_of(rest[0])]->0, rest)
    }
}

/// How insertion changes the structure: it is local to the inserted
/// word's path.  At every level, every slot off the path is unchanged;
/// an existing node on the path keeps its letter and its children, and
/// keeps its terminal flag except that the final letter's node may have
/// it raised; nodes created on the path spell exactly the remaining
/// letters of the word.
pub open spec fn path_update(pre: NodeList, post: NodeList, word: Seq<char>) -> bool
    decreases word.len(),
{
    &&& word.len() > 0
    &&& post.nodes@.len() == pre.nodes@.len()
    &&& forall|j: int|
        0 <= j < post.nodes@.len() && j != slot_of(word[0]) ==> #[trigger] post.nodes@[j]
            == pre.nodes@[j]
    &&& post.nodes@[slot_of(word[0])] is Some
    &&& {
        let n = *post.nodes@[slot_of(word[0])]->0;
        match pre.nodes@[slot_of(word[0])] {
            Some(m) => {
                &&& n.value == m.value
                &&& n.terminal == (m.terminal || word.len() == 1)
                &&& if word.len() == 1 {
                    n.children == m.children
                } else {
                    path_update(m.children, n.children, word.drop_first())
                }
            },
            None => fresh_path(n, word),
        }
    }
}

/// The predicate "begins with the prefix `p`".
pub open spec fn with_prefix(p: Seq<char>) -> spec_fn(Seq<char>) -> bool {
    |w: Seq<char>| p.is_prefix_of(w)
}

impl Node {
    /// Every word this node enumerates is non-empty and begins with the
    /// node's own letter.
    pub proof fn lemma_word_shape(self)
        requires
            self.wf(),
        ensures
            forall|i: int|
                0 <= i < self.word_seq().len() ==> (#[trigger] self.word_seq()[i]).len() > 0
                    && self.word_seq()[i][0] == self.value,
    {
        let cws = self.children.word_seq();
        assert forall|i: int| 0 <= i < self.word_seq().len() implies (
        #[trigger] self.word_seq()[i]).len() > 0 && self.word_seq()[i][0] == self.value by {
            let below = prepend_all(self.value, cws);
            if self.terminal {
                if i > 0 {
                    assert(self.word_seq()[i] == below[i - 1]);
                    assert(below[i - 1] == seq![self.value] + cws[i - 1]);
                }
            } else {
                assert(self.word_seq()[i] == seq![self.value] + cws[i]);
            }
        }
    }
}

/// Filtering keeps a sequence whose every word satisfies the predicate.
proof fn lemma_filter_all(ws: Seq<Seq<char>>, pred: spec_fn(Seq<char>) -> bool)
    requires
        forall|i: int| 0 <= i < ws.len() ==> pred(#[trigger] ws[i]),
    ensures
        ws.filter(pred) == ws,
    decreases ws.len(),
{
    reveal(Seq::filter);
    if ws.len() > 0 {
        lemma_filter_all(ws.drop_last(), pred);
        assert(ws.filter(pred) =~= ws);
    }
}

/// Filtering drops a sequence whose no word satisfies the predicate.
proof fn lemma_filter_none(ws: Seq<Seq<char>>, pred: spec_fn(Seq<char>) -> bool)
    requires
        forall|i: int| 0 <= i < ws.len() ==> !pred(#[trigger] ws[i]),
    ensures
        ws.filter(pred) == Seq::<Seq<char>>::empty(),
    decreases ws.len(),
{
    reveal(Seq::filter);
    if ws.len() > 0 {
        lemma_filter_none(ws.drop_last(), pred);
    }
}

/// Putting a letter in front of every word commutes with filtering by a
/// prefix that begins with that same letter.
proof fn lemma_filter_prepend_all(c: char, ws: Seq<Seq<char>>, q: Seq<char>)
    ensures
        prepend_all(c, ws).filter(with_prefix(seq![c] + q)) == prepend_all(
            c,
            ws.filter(with_prefix(q)),
        ),
    decreases ws.len(),
{
    reveal(Seq::filter);
    let p = seq![c] + q;
    if ws.len() == 0 {
        assert(prepend_all(c, ws) =~= Seq::<Seq<char>>::empty());
        assert(prepend_all(c, ws.filter(with_prefix(q))) =~= Seq::<Seq<char>>::empty());
    } else {
        let rest = ws.drop_last();
        let last = ws.last();
        lemma_filter_prepend_all(c, rest, q);
        assert(prepend_all(c, ws).drop_last() =~= prepend_all(c, rest));
        assert(prepend_all(c, ws).last() == seq![c] + last);
        assert(with_prefix(p)(seq![c] + last) == with_prefix(q)(last)) by {
            if q.is_prefix_of(last) {
                assert(p =~= (seq![c] + last).subrange(0, p.len() as int));
            }
            if p.is_prefix_of(seq![c] + last) {
                assert(q =~= last.subrange(0, q.len() as int)) by {
                    assert forall|j: int| 0 <= j < q.len() implies q[j] == last[j] by {
                        assert(p[j + 1] == (seq![c] + last)[j + 1]);
                    }
                }
            }
        }
        if with_prefix(q)(last) {
            assert(prepend_all(c, ws.filter(with_prefix(q))) =~= prepend_all(
                c,
                rest.filter(with_prefix(q)),
            ).push(seq![c] + last));
            assert(prepend_all(c, ws).filter(with_prefix(p)) =~= prepend_all(
                c,
                rest,
            ).filter(with_prefix(p)).push(seq![c] + last));
        } else {
            assert(prepend_all(c, ws.filter(with_prefix(q))) =~= prepend_all(
                c,
                rest.filter(with_prefix(q)),
            ));
            assert(prepend_all(c, ws).filter(with_prefix(p)) =~= prepend_all(
                c,
                rest,
            ).filter(with_prefix(p)));
        }
    }
}

impl NodeList {
    /// The words of this subtree that begin with a letter `p[0]` all sit
    /// in the slot of `p[0]`: filtering the whole enumeration by the
    /// prefix `p` is filtering that one slot's words.
    proof fn lemma_filter_by_first(self, j: int, p: Seq<char>)
        requires
            self.wf(),
            0 <= j <= ALPHABET,
            p.len() > 0,
            is_lower(p[0]),
        ensures
            self.word_seq_from(j).filter(with_prefix(p)) == if slot_of(p[0]) >= j
                && self.nodes@[slot_of(p[0])] is Some {
                (*self.nodes@[slot_of(p[0])]->0).word_seq().filter(with_prefix(p))
            } else {
                Seq::<Seq<char>>::empty()
            },
        decreases 27int - j,
    {
        reveal(Seq::filter);
        let k = slot_of(p[0]);
        if j < ALPHABET {
            self.lemma_filter_by_first(j + 1, p);
            let head = match self.nodes@[j] {
                Some(n) => n.word_seq(),
                None => Seq::<Seq<char>>::empty(),
            };
            let tail = self.word_seq_from(j + 1);
            assert(self.word_seq_from(j) == head + tail);
            Seq::filter_distributes_over_add(head, tail, with_prefix(p));
            if j == k {
                match self.nodes@[j] {
                    Some(n) => {
                        assert(head.filter(with_prefix(p)) + Seq::<Seq<char>>::empty()
                            =~= head.filter(with_prefix(p)));
                    },
                    None => {
                        assert(Seq::<Seq<char>>::empty() + Seq::<Seq<char>>::empty() =~= Seq::<
                            Seq<char>,
                        >::empty());
                    },
                }
            } else {
                match self.nodes@[j] {
                    Some(n) => {
                        n.lemma_word_shape();
                        assert forall|i: int| 0 <= i < head.len() implies !with_prefix(p)(
                            #[trigger] head[i],
                        ) by {
                            assert(head[i][0] == n.value);
                            assert(slot_of(n.value) == j);
                            if p.is_prefix_of(head[i]) {
                                assert(p[0] == head[i][0]);
                            }
                        }
                        lemma_filter_none(head, with_prefix(p));
                        assert(Seq::<Seq<char>>::empty() + tail.filter(with_prefix(p))
                            =~= tail.filter(with_prefix(p)));
                    },
                    None => {
                        assert(Seq::<Seq<char>>::empty() + tail.filter(with_prefix(p))
                            =~= tail.filter(with_prefix(p)));
                    },
                }
            }
        } else {
            assert(self.word_seq_from(j) == Seq::<Seq<char>>::empty());
        }
    }
}

impl NodeList {
    /// Every stored word that begins with `pat`, each returned in full,
    /// in the order full enumeration would produce them.  A prefix no
    /// stored word begins with yields an empty vector.
    pub fn find_starts_with(&self, pat: &str) -> (r: Vec<String>)
        requires
            self.wf(),
            lower_seq(pat@),
        ensures
            views(r@) == self.word_seq().filter(with_prefix(pat@)),
    {
        let mut out: Vec<String> = Vec::new();
        let mut buf = String::new();
        proof {
            assert(buf@ =~= pat@.take(0));
        }
        self.find_from(pat, 0, &mut buf, &mut out);
        proof {
            assert(pat@.skip(0) =~= pat@);
            lemma_under_empty_prefix(self.word_seq().filter(with_prefix(pat@)));
            assert(pat@.take(0) =~= Seq::<char>::empty());
            assert(views(Seq::<String>::empty()) + self.word_seq().filter(with_prefix(pat@))
                =~= self.word_seq().filter(with_prefix(pat@)));
        }
        out
    }

    /// Append to `out` every stored word that begins with `pat`, of which
    /// the first `i` letters have already been walked; `buf` holds those
    /// walked letters.
    fn find_from(&self, pat: &str, i: usize, buf: &mut String, out: &mut Vec<String>)
        requires
            self.wf(),
            lower_seq(pat@),
            i <= pat@.len(),
            old(buf)@ == pat@.take(i as int),
        ensures
            final(buf)@ == old(buf)@,
            views(final(out)@) == views(old(out)@) + under(
                pat@.take(i as int),
                self.word_seq().filter(with_prefix(pat@.skip(i as int))),
            ),
        decreases pat@.len() - i,
    {
        let ghost out0 = views(old(out)@);
        let len = pat.unicode_len();
        if i == len {
            self.collect_words(buf, out);
            proof {
                let p = pat@.skip(i as int);
                assert(p =~= Seq::<char>::empty());
                assert forall|k: int| 0 <= k < self.word_seq().len() implies with_prefix(p)(
                    #[trigger] self.word_seq()[k],
                ) by {
                    assert(p =~= self.word_seq()[k].subrange(0, 0));
                }
                lemma_filter_all(self.word_seq(), with_prefix(p));
            }
        } else {
            let c = pat.get_char(i);
            let idx = slot_index(c);
            let ghost p = pat@.skip(i as int);
            let ghost q = pat@.skip(i as int + 1);
            proof {
                assert(p[0] == c);
                assert(p =~= seq![c] + q);
            }
            match &self.nodes[idx] {
                None => {
                    proof {
                        self.lemma_filter_by_first(0, p);
                        assert(self.word_seq() == self.word_seq_from(0));
                        assert(under(pat@.take(i as int), Seq::empty()) =~= Seq::<
                            Seq<char>,
                        >::empty());
                        assert(views(out@) + Seq::<Seq<char>>::empty() =~= views(out@));
                    }
                },
                Some(child) => {
                    proof {
                        assert(slot_of(child.value) == idx as int);
                        assert(child.value == c) by {
                            assert(child.value as int == c as int);
                        }
                    }
                    push_char(buf, c);
                    proof {
                        assert(buf@ =~= pat@.take(i as int + 1));
                    }
                    let ghost mid = views(out@);
                    if i + 1 == len && child.terminal {
                        let w = buf.clone();
                        out.push(w);
                        proof {
                            assert(views(out@) =~= mid + seq![pat@.take(i as int + 1)]);
                        }
                    }
                    let ghost mid2 = views(out@);
                    child.children.find_from(pat, i + 1, buf, out);
                    let _ = pop_char(buf);
                    proof {
                        reveal(Seq::filter);
                        assert(buf@ =~= pat@.take(i as int));
                        let cws = child.children.word_seq();
                        let fcws = cws.filter(with_prefix(q));
                        let head: Seq<Seq<char>> = if child.terminal {
                            seq![seq![c]]
                        } else {
                            Seq::empty()
                        };
                        // the whole trie's matches are the matches below this slot
                        self.lemma_filter_by_first(0, p);
                        assert(self.word_seq() == self.word_seq_from(0));
                        assert(child.word_seq() == head + prepend_all(c, cws));
                        Seq::filter_distributes_over_add(
                            head,
                            prepend_all(c, cws),
                            with_prefix(p),
                        );
                        lemma_filter_prepend_all(c, cws, q);
                        // the node's own word survives the filter iff the walk ends here
                        let fhead = head.filter(with_prefix(p));
                        if child.terminal {
                            assert(head.drop_last() =~= Seq::<Seq<char>>::empty());
                            if i + 1 == len {
                                assert(q =~= Seq::<char>::empty());
                                assert(with_prefix(p)(seq![c])) by {
                                    assert(p =~= seq![c].subrange(0, p.len() as int));
                                }
                                assert(fhead =~= seq![seq![c]]);
                            } else {
                                assert(!with_prefix(p)(seq![c]));
                                assert(fhead =~= Seq::<Seq<char>>::empty());
                            }
                        } else {
                            assert(fhead =~= Seq::<Seq<char>>::empty());
                        }
                        // push the walked letters in front of every match
                        lemma_under_add(pat@.take(i as int), fhead, prepend_all(c, fcws));
                        lemma_under_nest(pat@.take(i as int), c, fcws);
                        assert(pat@.take(i as int) + seq![c] =~= pat@.take(i as int + 1));
                        assert(views(out@) == mid2 + under(pat@.take(i as int + 1), fcws));
                        if child.terminal && i + 1 == len {
                            assert(under(pat@.take(i as int), fhead) =~= seq![
                                pat@.take(i as int + 1),
                            ]) by {
                                assert(pat@.take(i as int) + seq![c] =~= pat@.take(i as int + 1));
                            }
                            assert(views(out@) =~= out0 + under(
                                pat@.take(i as int),
                                self.word_seq().filter(with_prefix(p)),
                            ));
                        } else {
                            assert(under(pat@.take(i as int), fhead) =~= Seq::<Seq<char>>::empty());
                            assert(views(out@) =~= out0 + under(
                                pat@.take(i as int),
                                self.word_seq().filter(with_prefix(p)),
                            ));
                        }
                    }
                },
            }
        }
    }
}

impl NodeList {
    /// The empty prefix begins every word: prefix-scoped enumeration
    /// with the empty prefix is full enumeration.
    pub proof fn lemma_empty_prefix_is_all(self)
        requires
            self.wf(),
        ensures
            self.word_seq().filter(with_prefix(Seq::empty())) == self.word_seq(),
    {
        assert forall|k: int| 0 <= k < self.word_seq().len() implies with_prefix(
            Seq::<char>::empty(),
        )(#[trigger] self.word_seq()[k]) by {
            assert(Seq::<char>::empty() =~= self.word_seq()[k].subrange(0, 0));
        }
        lemma_filter_all(self.word_seq(), with_prefix(Seq::empty()));
    }
}

impl NodeList {
    /// The nodes present among the 26 slots, in ascending letter order.
    pub open spec fn child_nodes(self) -> Seq<Node> {
        self.child_nodes_from(0)
    }

    /// The nodes present among slots `i..26`, in ascending letter order.
    pub open spec fn child_nodes_from(self, i: int) -> Seq<Node>
        decreases 27int - i,
    {
        if 0 <= i < ALPHABET {
            (match self.nodes@[i] {
                Some(n) => seq![*n],
                None => Seq::empty(),
            }) + self.child_nodes_from(i + 1)
        } else {
            Seq::empty()
        }
    }

    /// The present child nodes in ascending letter order, or `None` when
    /// every slot is empty.
    pub fn existing_nodes(&self) -> (r: Option<Vec<&Box<Node>>>)
        requires
            self.wf(),
        ensures
            match r {
                None => self.child_nodes().len() == 0,
                Some(v) => {
                    &&& v@.len() == self.child_nodes().len()
                    &&& v@.len() > 0
                    &&& forall|j: int| 0 <= j < v@.len() ==> **v@[j] == self.child_nodes()[j]
                },
            },
    {
        let mut children: Vec<&Box<Node>> = Vec::new();
        let ghost mut acc: Seq<Node> = Seq::empty();
        let mut i: usize = 0;
        while i < ALPHABET
            invariant
                self.wf(),
                i <= ALPHABET,
                acc + self.child_nodes_from(i as int) == self.child_nodes(),
                children@.len() == acc.len(),
                forall|j: int| 0 <= j < acc.len() ==> **children@[j] == acc[j],
            decreases ALPHABET - i,
        {
            match &self.nodes[i] {
                Some(b) => {
                    children.push(b);
                    proof {
                        assert(acc.push(**b) + self.child_nodes_from(i as int + 1) =~= acc
                            + self.child_nodes_from(i as int));
                        acc = acc.push(**b);
                    }
                },
                None => {
                    proof {
                        assert(acc + self.child_nodes_from(i as int + 1) =~= acc
                            + self.child_nodes_from(i as int));
                    }
                },
            }
            i += 1;
        }
        proof {
            assert(acc + self.child_nodes_from(ALPHABET as int) =~= acc);
        }
        if children.len() == 0 {
            None
        } else {
            Some(children)
        }
    }
}

impl Node {
    /// The present children of this node in ascending letter order, or
    /// `None` when it has none.
    pub fn get_children(&self) -> (r: Option<Vec<&Box<Node>>>)
        requires
            self.wf(),
        ensures
            match r {
                None => self.children.child_nodes().len() == 0,
                Some(v) => {
                    &&& v@.len() == self.children.child_nodes().len()
                    &&& v@.len() > 0
                    &&& forall|j: int|
                        0 <= j < v@.len() ==> **v@[j] == self.children.child_nodes()[j]
                },
            },
    {
        self.children.existing_nodes()
    }
}

impl Node {
    /// A fresh node for the letter `c`, with no children yet.
    pub fn new(c: char, terminal: bool) -> (r: Node)
        ensures
            r.value == c,
            r.terminal == terminal,
            empty_list(r.children),
            is_lower(c) ==> r.wf(),
    {
        Node { value: c, children: NodeList::new(), terminal }
    }
}

} // verus!
