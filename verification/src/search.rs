//! The search subsystem: an exact-match index from food name to id and
//! a prefix trie over case-folded names for autocomplete. Both are
//! derived from the food collection and rebuilt wholesale by `reindex`.
//!
//! Every operation is mirrored by a spec-level function over a ghost
//! model, so search results are pinned down exactly: two indexes built
//! from the same food collection answer every query identically.

use vstd::prelude::*;

use crate::food::{Food, FoodID};

verus! {

/// What the case fold of a sequence of characters is. The fold is a
/// function of the characters alone.
pub uninterp spec fn lowercase_of(s: Seq<char>) -> Seq<char>;

/// Relies on `str::to_lowercase`: the lowercase form of a string
/// depends only on its characters (Unicode case folding, no locale).
#[verifier::external_body]
fn fold_chars(s: &str) -> (r: Vec<char>)
    ensures
        r@ == lowercase_of(s@),
{
    s.to_lowercase().chars().collect()
}

/// The ghost shape of a trie node: all words sharing one case-folded
/// prefix of length `depth`. `words` holds the (case-preserved) words
/// whose fold ends exactly here; `children` continue the prefix by one
/// character each, in insertion order.
pub struct SpecTrie {
    pub depth: nat,
    pub children: Seq<(char, SpecTrie)>,
    pub words: Seq<Seq<char>>,
}

/// The trie with nothing in it.
pub open spec fn empty_trie() -> SpecTrie {
    SpecTrie { depth: 0, children: Seq::empty(), words: Seq::empty() }
}

/// Index of the first child keyed by `c`, or -1 when there is none.
pub open spec fn find_child(children: Seq<(char, SpecTrie)>, c: char) -> int
    decreases children.len(),
{
    if children.len() == 0 {
        -1
    } else if children[0].0 == c {
        0
    } else {
        let r = find_child(children.subrange(1, children.len() as int), c);
        if r == -1 {
            -1
        } else {
            r + 1
        }
    }
}

/// `find_child` returns -1 exactly when no child is keyed by `c`, and
/// otherwise the least index keyed by `c`.
pub proof fn lemma_find_child(children: Seq<(char, SpecTrie)>, c: char)
    ensures
        find_child(children, c) == -1 ==> forall|k: int|
            0 <= k < children.len() ==> (#[trigger] children[k]).0 != c,
        find_child(children, c) != -1 ==> {
            let j = find_child(children, c);
            &&& 0 <= j < children.len()
            &&& children[j].0 == c
            &&& forall|k: int| 0 <= k < j ==> (#[trigger] children[k]).0 != c
        },
    decreases children.len(),
{
    if children.len() == 0 {
    } else if children[0].0 == c {
    } else {
        lemma_find_child(children.subrange(1, children.len() as int), c);
        let rest = children.subrange(1, children.len() as int);
        assert(forall|k: int| 1 <= k < children.len() ==> (#[trigger] children[k]) == rest[k - 1]);
    }
}

/// A fresh chain of nodes from depth `d` down along `folded`, with
/// `word` stored at the bottom.
pub open spec fn spec_chain(d: nat, word: Seq<char>, folded: Seq<char>) -> SpecTrie
    decreases folded.len() - d,
{
    if d >= folded.len() {
        SpecTrie { depth: d, children: Seq::empty(), words: seq![word] }
    } else {
        SpecTrie {
            depth: d,
            children: seq![(folded[d as int], spec_chain(d + 1, word, folded))],
            words: Seq::empty(),
        }
    }
}

/// Insertion of `word` (with case-folded form `folded`) into a trie:
/// descend one `folded` character per level, creating nodes lazily, and
/// store the word at the node whose depth exhausts `folded`.
pub open spec fn spec_add(t: SpecTrie, word: Seq<char>, folded: Seq<char>) -> SpecTrie
    decreases t,
    via spec_add_decreases
{
    if t.depth >= folded.len() {
        SpecTrie { words: t.words.push(word), ..t }
    } else {
        let c = folded[t.depth as int];
        let j = find_child(t.children, c);
        if j >= 0 {
            SpecTrie {
                children: t.children.update(j, (c, spec_add(t.children[j].1, word, folded))),
                ..t
            }
        } else {
            SpecTrie { children: t.children.push((c, spec_chain(t.depth + 1, word, folded))), ..t }
        }
    }
}

#[via_fn]
proof fn spec_add_decreases(t: SpecTrie, word: Seq<char>, folded: Seq<char>) {
    if t.depth < folded.len() {
        lemma_find_child(t.children, folded[t.depth as int]);
    }
}

/// Everything at and below this node, gathered front to back: the
/// node's own words first, then each child subtree in order, stopping
/// after the first child batch that pushes the count past `max` (the
/// soft cap).
pub open spec fn spec_collect(
    acc: Seq<Seq<char>>,
    children: Seq<(char, SpecTrie)>,
    folded: Seq<char>,
    max: int,
) -> Seq<Seq<char>>
    decreases children, 0int,
{
    if children.len() == 0 {
        acc
    } else {
        let acc2 = acc + spec_fuzzy(children[0].1, folded, max);
        if acc2.len() > max {
            acc2
        } else {
            spec_collect(acc2, children.subrange(1, children.len() as int), folded, max)
        }
    }
}

/// The autocomplete result for the case-folded prefix `folded`: descend
/// one character per level; once the prefix is exhausted, gather every
/// word at and below the node, up to the soft cap `max`.
pub open spec fn spec_fuzzy(t: SpecTrie, folded: Seq<char>, max: int) -> Seq<Seq<char>>
    decreases t, 1int,
    via spec_fuzzy_decreases
{
    if t.depth >= folded.len() {
        spec_collect(t.words, t.children, folded, max)
    } else {
        let j = find_child(t.children, folded[t.depth as int]);
        if j >= 0 {
            spec_fuzzy(t.children[j].1, folded, max)
        } else {
            Seq::empty()
        }
    }
}

#[via_fn]
proof fn spec_fuzzy_decreases(t: SpecTrie, folded: Seq<char>, max: int) {
    if t.depth < folded.len() {
        lemma_find_child(t.children, folded[t.depth as int]);
    }
}

/// Each child sits one level below its parent, all the way down. This
/// is what makes insertion terminate.
pub open spec fn depths_ok_children(children: Seq<(char, SpecTrie)>, d: nat) -> bool
    decreases children, 0int,
{
    if children.len() == 0 {
        true
    } else {
        &&& children[0].1.depth == d
        &&& depths_ok(children[0].1)
        &&& depths_ok_children(children.subrange(1, children.len() as int), d)
    }
}

/// See `depths_ok_children`.
pub open spec fn depths_ok(t: SpecTrie) -> bool
    decreases t, 1int,
{
    depths_ok_children(t.children, t.depth + 1)
}

/// Index form of `depths_ok_children`.
proof fn lemma_depths_ok_children_index(children: Seq<(char, SpecTrie)>, d: nat)
    requires
        depths_ok_children(children, d),
    ensures
        forall|k: int| 0 <= k < children.len() ==> (#[trigger] children[k]).1.depth == d
            && depths_ok(children[k].1),
    decreases children.len(),
{
    if children.len() > 0 {
        let rest = children.subrange(1, children.len() as int);
        lemma_depths_ok_children_index(rest, d);
        assert(forall|k: int| 1 <= k < children.len() ==> (#[trigger] children[k]) == rest[k - 1]);
    }
}

/// Every word stored at a node case-folds exactly to the node's path.
pub open spec fn wf_words(words: Seq<Seq<char>>, path: Seq<char>) -> bool {
    forall|k: int| 0 <= k < words.len() ==> lowercase_of(#[trigger] words[k]) == path
}

/// Each child is well-formed under the path extended by its character.
pub open spec fn wf_children(children: Seq<(char, SpecTrie)>, path: Seq<char>) -> bool
    decreases children, 0int,
{
    if children.len() == 0 {
        true
    } else {
        &&& wf_at(children[0].1, path.push(children[0].0))
        &&& wf_children(children.subrange(1, children.len() as int), path)
    }
}

/// Well-formed under `path`: this node sits at depth `path.len()`,
/// every word stored here case-folds exactly to `path`, and each child
/// subtree is well-formed one character further down. A whole trie is
/// well-formed when its root satisfies this under the empty path.
pub open spec fn wf_at(t: SpecTrie, path: Seq<char>) -> bool
    decreases t, 1int,
{
    &&& t.depth == path.len()
    &&& wf_words(t.words, path)
    &&& wf_children(t.children, path)
}

/// Index form of `wf_children`.
proof fn lemma_wf_children_index(children: Seq<(char, SpecTrie)>, path: Seq<char>)
    requires
        wf_children(children, path),
    ensures
        forall|k: int| 0 <= k < children.len() ==> wf_at(
            (#[trigger] children[k]).1,
            path.push(children[k].0),
        ),
    decreases children.len(),
{
    if children.len() > 0 {
        let rest = children.subrange(1, children.len() as int);
        lemma_wf_children_index(rest, path);
        assert(forall|k: int| 1 <= k < children.len() ==> (#[trigger] children[k]) == rest[k - 1]);
    }
}

/// Converse of `lemma_wf_children_index`.
proof fn lemma_wf_children_from_index(children: Seq<(char, SpecTrie)>, path: Seq<char>)
    requires
        forall|k: int| 0 <= k < children.len() ==> wf_at(
            (#[trigger] children[k]).1,
            path.push(children[k].0),
        ),
    ensures
        wf_children(children, path),
    decreases children.len(),
{
    if children.len() > 0 {
        let rest = children.subrange(1, children.len() as int);
        assert(forall|k: int| 0 <= k < rest.len() ==> (#[trigger] rest[k]) == children[k + 1]);
        lemma_wf_children_from_index(rest, path);
    }
}

/// A fresh chain is well-formed under the path it continues.
proof fn lemma_chain_wf(d: nat, word: Seq<char>, folded: Seq<char>, path: Seq<char>)
    requires
        lowercase_of(word) == folded,
        d <= folded.len(),
        path == folded.take(d as int),
    ensures
        wf_at(spec_chain(d, word, folded), path),
    decreases folded.len() - d,
{
    let t = spec_chain(d, word, folded);
    if d >= folded.len() {
        assert(path =~= folded);
        lemma_wf_children_from_index(t.children, path);
    } else {
        let c = folded[d as int];
        assert(path.push(c) =~= folded.take(d + 1int));
        lemma_chain_wf(d + 1, word, folded, path.push(c));
        assert(t.children[0] == (c, spec_chain(d + 1, word, folded)));
        lemma_wf_children_from_index(t.children, path);
    }
}

/// Insertion preserves well-formedness: adding a word whose fold
/// extends the node's path keeps every stored word on its path.
proof fn lemma_add_wf(t: SpecTrie, path: Seq<char>, word: Seq<char>, folded: Seq<char>)
    requires
        wf_at(t, path),
        lowercase_of(word) == folded,
        t.depth <= folded.len(),
        path == folded.take(t.depth as int),
    ensures
        wf_at(spec_add(t, word, folded), path),
    decreases t,
{
    let r = spec_add(t, word, folded);
    if t.depth >= folded.len() {
        assert(path =~= folded);
        assert forall|k: int| 0 <= k < r.words.len() implies lowercase_of(#[trigger] r.words[k])
            == path by {
            if k < t.words.len() {
                assert(r.words[k] == t.words[k]);
            } else {
                assert(r.words[k] == word);
            }
        }
    } else {
        let c = folded[t.depth as int];
        let j = find_child(t.children, c);
        lemma_find_child(t.children, c);
        lemma_wf_children_index(t.children, path);
        assert(path.push(c) =~= folded.take(t.depth + 1int));
        if j >= 0 {
            let child = t.children[j].1;
            assert(wf_at(child, path.push(c)));
            lemma_add_wf(child, path.push(c), word, folded);
            assert forall|k: int| 0 <= k < r.children.len() implies wf_at(
                (#[trigger] r.children[k]).1,
                path.push(r.children[k].0),
            ) by {
                if k != j {
                    assert(r.children[k] == t.children[k]);
                }
            }
            lemma_wf_children_from_index(r.children, path);
        } else {
            lemma_chain_wf(t.depth + 1, word, folded, path.push(c));
            assert forall|k: int| 0 <= k < r.children.len() implies wf_at(
                (#[trigger] r.children[k]).1,
                path.push(r.children[k].0),
            ) by {
                if k < t.children.len() {
                    assert(r.children[k] == t.children[k]);
                } else {
                    assert(r.children[k] == (c, spec_chain(t.depth + 1, word, folded)));
                }
            }
            lemma_wf_children_from_index(r.children, path);
        }
    }
}

/// Inserting at the root preserves well-formedness of the whole trie.
pub proof fn lemma_add_word_preserves_wf(t: SpecTrie, word: Seq<char>)
    requires
        wf_at(t, Seq::<char>::empty()),
    ensures
        wf_at(spec_add(t, word, lowercase_of(word)), Seq::<char>::empty()),
{
    assert(Seq::<char>::empty() =~= lowercase_of(word).take(0));
    lemma_add_wf(t, Seq::<char>::empty(), word, lowercase_of(word));
}

/// Every autocomplete answer extends the queried prefix: a word comes
/// back from `spec_fuzzy` only if its case-folded form begins with the
/// case-folded prefix. With `lemma_trie_of_wf`, this is the guarantee
/// that a search over a freshly derived index never returns a word
/// outside the requested prefix.
pub proof fn lemma_fuzzy_sound(t: SpecTrie, path: Seq<char>, folded: Seq<char>, max: int)
    requires
        wf_at(t, path),
        t.depth <= folded.len() ==> path == folded.take(t.depth as int),
        t.depth > folded.len() ==> folded.is_prefix_of(path),
    ensures
        forall|k: int| 0 <= k < spec_fuzzy(t, folded, max).len() ==> folded.is_prefix_of(
            lowercase_of(#[trigger] spec_fuzzy(t, folded, max)[k]),
        ),
    decreases t, 1int,
{
    let out = spec_fuzzy(t, folded, max);
    if t.depth >= folded.len() {
        if t.depth == folded.len() {
            assert(folded.take(t.depth as int) =~= folded);
        }
        assert(folded.is_prefix_of(path));
        assert forall|k: int| 0 <= k < t.words.len() implies folded.is_prefix_of(
            lowercase_of(#[trigger] t.words[k]),
        ) by {
            assert(lowercase_of(t.words[k]) == path);
        }
        lemma_collect_sound(t.words, t.children, path, folded, max);
        assert forall|k: int| 0 <= k < out.len() implies folded.is_prefix_of(
            lowercase_of(#[trigger] out[k]),
        ) by {
            assert(out[k] == spec_collect(t.words, t.children, folded, max)[k]);
        }
    } else {
        let c = folded[t.depth as int];
        let j = find_child(t.children, c);
        lemma_find_child(t.children, c);
        if j >= 0 {
            lemma_wf_children_index(t.children, path);
            assert(path.push(c) =~= folded.take(t.depth + 1int));
            lemma_fuzzy_sound(t.children[j].1, path.push(c), folded, max);
            assert forall|k: int| 0 <= k < out.len() implies folded.is_prefix_of(
                lowercase_of(#[trigger] out[k]),
            ) by {
                assert(out[k] == spec_fuzzy(t.children[j].1, folded, max)[k]);
            }
        }
    }
}

/// Gathering below a node whose path already extends the prefix only
/// yields words that extend the prefix.
proof fn lemma_collect_sound(
    acc: Seq<Seq<char>>,
    children: Seq<(char, SpecTrie)>,
    path: Seq<char>,
    folded: Seq<char>,
    max: int,
)
    requires
        forall|k: int| 0 <= k < acc.len() ==> folded.is_prefix_of(
            lowercase_of(#[trigger] acc[k]),
        ),
        wf_children(children, path),
        folded.is_prefix_of(path),
    ensures
        forall|k: int| 0 <= k < spec_collect(acc, children, folded, max).len()
            ==> folded.is_prefix_of(
            lowercase_of(#[trigger] spec_collect(acc, children, folded, max)[k]),
        ),
    decreases children, 0int,
{
    if children.len() == 0 {
    } else {
        let child = children[0].1;
        let cpath = path.push(children[0].0);
        assert(wf_at(child, cpath));
        assert(folded.is_prefix_of(cpath)) by {
            assert(folded =~= cpath.subrange(0, folded.len() as int));
        }
        assert(child.depth > folded.len());
        lemma_fuzzy_sound(child, cpath, folded, max);
        let batch = spec_fuzzy(child, folded, max);
        let acc2 = acc + batch;
        assert forall|k: int| 0 <= k < acc2.len() implies folded.is_prefix_of(
            lowercase_of(#[trigger] acc2[k]),
        ) by {
            if k < acc.len() {
                assert(acc2[k] == acc[k]);
            } else {
                assert(acc2[k] == batch[k - acc.len()]);
            }
        }
        let out = spec_collect(acc, children, folded, max);
        if acc2.len() > max {
            assert(out == acc2);
        } else {
            let rest = children.subrange(1, children.len() as int);
            lemma_collect_sound(acc2, rest, path, folded, max);
            assert forall|k: int| 0 <= k < out.len() implies folded.is_prefix_of(
                lowercase_of(#[trigger] out[k]),
            ) by {
                assert(out[k] == spec_collect(acc2, rest, folded, max)[k]);
            }
        }
    }
}

/// Every word stored at or below this node, words here first, then
/// each child subtree in order.
pub open spec fn all_words(t: SpecTrie) -> Seq<Seq<char>>
    decreases t, 1int,
{
    t.words + all_words_children(t.children)
}

/// Every word stored below these children, in order.
pub open spec fn all_words_children(s: Seq<(char, SpecTrie)>) -> Seq<Seq<char>>
    decreases s, 0int,
{
    if s.len() == 0 {
        Seq::empty()
    } else {
        all_words(s[0].1) + all_words_children(s.subrange(1, s.len() as int))
    }
}

/// Membership in a concatenation is membership in either part.
proof fn lemma_add_contains(a: Seq<Seq<char>>, b: Seq<Seq<char>>, x: Seq<char>)
    ensures
        (a + b).contains(x) <==> a.contains(x) || b.contains(x),
{
    if (a + b).contains(x) {
        let k = choose|k: int| 0 <= k < (a + b).len() && (a + b)[k] == x;
        if k < a.len() {
            assert(a[k] == x);
        } else {
            assert(b[k - a.len()] == x);
        }
    }
    if a.contains(x) {
        let k = choose|k: int| 0 <= k < a.len() && a[k] == x;
        assert((a + b)[k] == x);
    }
    if b.contains(x) {
        let k = choose|k: int| 0 <= k < b.len() && b[k] == x;
        assert((a + b)[a.len() + k] == x);
    }
}

/// A word lives below the children exactly when it lives below one of
/// them.
proof fn lemma_all_words_children_contains(s: Seq<(char, SpecTrie)>, x: Seq<char>)
    ensures
        all_words_children(s).contains(x) <==> exists|k: int|
            0 <= k < s.len() && all_words((#[trigger] s[k]).1).contains(x),
    decreases s.len(),
{
    if s.len() == 0 {
    } else {
        let rest = s.subrange(1, s.len() as int);
        lemma_all_words_children_contains(rest, x);
        lemma_add_contains(all_words(s[0].1), all_words_children(rest), x);
        assert(forall|k: int| 0 <= k < rest.len() ==> (#[trigger] rest[k]) == s[k + 1]);
        if all_words_children(s).contains(x) {
            if all_words(s[0].1).contains(x) {
                assert(all_words(s[0].1).contains(x));
            } else {
                let k = choose|k: int|
                    0 <= k < rest.len() && all_words((#[trigger] rest[k]).1).contains(x);
                assert(all_words(s[k + 1].1).contains(x));
            }
        }
        if exists|k: int| 0 <= k < s.len() && all_words((#[trigger] s[k]).1).contains(x) {
            let k = choose|k: int| 0 <= k < s.len() && all_words((#[trigger] s[k]).1).contains(x);
            if k > 0 {
                assert(all_words(rest[k - 1].1).contains(x));
            }
        }
    }
}

/// No two children of one node share a character.
pub open spec fn distinct_child_chars(children: Seq<(char, SpecTrie)>) -> bool {
    forall|a: int, b: int| 0 <= a < b < children.len() ==> (#[trigger] children[a]).0 != (
    #[trigger] children[b]).0
}

/// `uniq_at` for each child in turn.
pub open spec fn uniq_children(children: Seq<(char, SpecTrie)>) -> bool
    decreases children, 0int,
{
    if children.len() == 0 {
        true
    } else {
        uniq_at(children[0].1) && uniq_children(children.subrange(1, children.len() as int))
    }
}

/// Throughout the trie, no node has two children keyed by the same
/// character; so one descent path serves every word with a given
/// prefix.
pub open spec fn uniq_at(t: SpecTrie) -> bool
    decreases t, 1int,
{
    distinct_child_chars(t.children) && uniq_children(t.children)
}

/// Index form of `uniq_children`.
proof fn lemma_uniq_children_index(children: Seq<(char, SpecTrie)>)
    requires
        uniq_children(children),
    ensures
        forall|k: int| 0 <= k < children.len() ==> uniq_at((#[trigger] children[k]).1),
    decreases children.len(),
{
    if children.len() > 0 {
        let rest = children.subrange(1, children.len() as int);
        lemma_uniq_children_index(rest);
        assert(forall|k: int| 1 <= k < children.len() ==> (#[trigger] children[k]) == rest[k - 1]);
    }
}

/// Converse of `lemma_uniq_children_index`.
proof fn lemma_uniq_children_from_index(children: Seq<(char, SpecTrie)>)
    requires
        forall|k: int| 0 <= k < children.len() ==> uniq_at((#[trigger] children[k]).1),
    ensures
        uniq_children(children),
    decreases children.len(),
{
    if children.len() > 0 {
        let rest = children.subrange(1, children.len() as int);
        assert(forall|k: int| 0 <= k < rest.len() ==> (#[trigger] rest[k]) == children[k + 1]);
        lemma_uniq_children_from_index(rest);
    }
}

/// A fresh chain has one child per node: trivially unique.
proof fn lemma_chain_uniq(d: nat, word: Seq<char>, folded: Seq<char>)
    ensures
        uniq_at(spec_chain(d, word, folded)),
    decreases folded.len() - d,
{
    let t = spec_chain(d, word, folded);
    if d >= folded.len() {
        lemma_uniq_children_from_index(t.children);
    } else {
        lemma_chain_uniq(d + 1, word, folded);
        assert(t.children[0].1 == spec_chain(d + 1, word, folded));
        lemma_uniq_children_from_index(t.children);
    }
}

/// Insertion never duplicates a child character.
proof fn lemma_add_uniq(t: SpecTrie, word: Seq<char>, folded: Seq<char>)
    requires
        uniq_at(t),
    ensures
        uniq_at(spec_add(t, word, folded)),
    decreases t,
{
    let r = spec_add(t, word, folded);
    if t.depth >= folded.len() {
    } else {
        let c = folded[t.depth as int];
        let j = find_child(t.children, c);
        lemma_find_child(t.children, c);
        lemma_uniq_children_index(t.children);
        if j >= 0 {
            lemma_add_uniq(t.children[j].1, word, folded);
            assert(forall|k: int| 0 <= k < r.children.len() ==> (#[trigger] r.children[k]).0
                == t.children[k].0);
            assert(forall|k: int| 0 <= k < r.children.len() && k != j ==> (
            #[trigger] r.children[k]) == t.children[k]);
            lemma_uniq_children_from_index(r.children);
        } else {
            lemma_chain_uniq(t.depth + 1, word, folded);
            assert forall|a: int, b: int| 0 <= a < b < r.children.len() implies (
            #[trigger] r.children[a]).0 != (#[trigger] r.children[b]).0 by {
                if b < t.children.len() {
                    assert(r.children[a] == t.children[a]);
                    assert(r.children[b] == t.children[b]);
                } else {
                    assert(r.children[a] == t.children[a]);
                    assert(r.children[b].0 == c);
                    assert(t.children[a].0 != c);
                }
            }
            assert(forall|k: int| 0 <= k < t.children.len() ==> (#[trigger] r.children[k])
                == t.children[k]);
            assert(r.children[t.children.len() as int].1 == spec_chain(t.depth + 1, word, folded));
            lemma_uniq_children_from_index(r.children);
        }
    }
}

/// Prefixes chain.
proof fn lemma_prefix_transitive(a: Seq<char>, b: Seq<char>, c: Seq<char>)
    requires
        a.is_prefix_of(b),
        b.is_prefix_of(c),
    ensures
        a.is_prefix_of(c),
{
    assert(a =~= c.subrange(0, a.len() as int));
}

/// A prefix of a sequence is a prefix of any extension of it.
proof fn lemma_prefix_push(a: Seq<char>, b: Seq<char>, c: char)
    requires
        a.is_prefix_of(b),
    ensures
        a.is_prefix_of(b.push(c)),
{
    assert(a =~= b.push(c).subrange(0, a.len() as int));
}

/// Every word below a well-formed node folds to an extension of the
/// node's path.
pub proof fn lemma_all_words_on_path(t: SpecTrie, path: Seq<char>)
    requires
        wf_at(t, path),
    ensures
        forall|x: Seq<char>| #[trigger] all_words(t).contains(x) ==> path.is_prefix_of(
            lowercase_of(x),
        ),
    decreases t, 1int,
{
    lemma_all_words_children_on_path(t.children, path);
    assert forall|x: Seq<char>| #[trigger] all_words(t).contains(x) implies path.is_prefix_of(
        lowercase_of(x),
    ) by {
        lemma_add_contains(t.words, all_words_children(t.children), x);
        if t.words.contains(x) {
            assert(lowercase_of(x) == path);
            assert(path =~= lowercase_of(x).subrange(0, path.len() as int));
        }
    }
}

/// Every word below the children folds to an extension of the parent
/// path.
proof fn lemma_all_words_children_on_path(children: Seq<(char, SpecTrie)>, path: Seq<char>)
    requires
        wf_children(children, path),
    ensures
        forall|x: Seq<char>| #[trigger] all_words_children(children).contains(x)
            ==> path.is_prefix_of(lowercase_of(x)),
    decreases children, 0int,
{
    if children.len() == 0 {
    } else {
        let rest = children.subrange(1, children.len() as int);
        lemma_all_words_on_path(children[0].1, path.push(children[0].0));
        lemma_all_words_children_on_path(rest, path);
        assert forall|x: Seq<char>| #[trigger] all_words_children(children).contains(
            x,
        ) implies path.is_prefix_of(lowercase_of(x)) by {
            lemma_add_contains(all_words(children[0].1), all_words_children(rest), x);
            if all_words(children[0].1).contains(x) {
                assert(path.push(children[0].0).is_prefix_of(lowercase_of(x)));
                assert(path.is_prefix_of(path.push(children[0].0))) by {
                    assert(path =~= path.push(children[0].0).subrange(0, path.len() as int));
                }
                lemma_prefix_transitive(path, path.push(children[0].0), lowercase_of(x));
            }
        }
    }
}

/// Once the prefix is exhausted, an uncapped gather returns everything
/// below the node.
proof fn lemma_fuzzy_all(t: SpecTrie, path: Seq<char>, folded: Seq<char>, max: int)
    requires
        wf_at(t, path),
        folded.is_prefix_of(path),
        spec_fuzzy(t, folded, max).len() <= max,
    ensures
        spec_fuzzy(t, folded, max) == all_words(t),
    decreases t, 1int,
{
    assert(t.depth >= folded.len());
    lemma_collect_all(t.words, t.children, path, folded, max);
}

/// An uncapped accumulator pass gathers the accumulator and then every
/// word below every child.
proof fn lemma_collect_all(
    acc: Seq<Seq<char>>,
    children: Seq<(char, SpecTrie)>,
    path: Seq<char>,
    folded: Seq<char>,
    max: int,
)
    requires
        wf_children(children, path),
        folded.is_prefix_of(path),
        spec_collect(acc, children, folded, max).len() <= max,
    ensures
        spec_collect(acc, children, folded, max) == acc + all_words_children(children),
    decreases children, 0int,
{
    if children.len() == 0 {
        assert(acc + all_words_children(children) =~= acc);
    } else {
        let child = children[0].1;
        let cpath = path.push(children[0].0);
        let batch = spec_fuzzy(child, folded, max);
        let acc2 = acc + batch;
        let rest = children.subrange(1, children.len() as int);
        if acc2.len() > max {
            assert(spec_collect(acc, children, folded, max) == acc2);
            assert(false);
        } else {
            lemma_collect_all(acc2, rest, path, folded, max);
            lemma_prefix_push(folded, path, children[0].0);
            lemma_fuzzy_all(child, cpath, folded, max);
            assert(spec_collect(acc, children, folded, max) == (acc + all_words(child))
                + all_words_children(rest));
            assert((acc + all_words(child)) + all_words_children(rest) =~= acc + (all_words(child)
                + all_words_children(rest)));
        }
    }
}

/// Autocomplete is complete up to the soft cap: whenever the gathered
/// result stayed within the cap, it holds every word at or below the
/// node whose case-folded form extends the case-folded prefix.
pub proof fn lemma_fuzzy_complete(t: SpecTrie, path: Seq<char>, folded: Seq<char>, max: int)
    requires
        wf_at(t, path),
        uniq_at(t),
        t.depth <= folded.len(),
        path == folded.take(t.depth as int),
        spec_fuzzy(t, folded, max).len() <= max,
    ensures
        forall|x: Seq<char>| #[trigger] all_words(t).contains(x) && folded.is_prefix_of(
            lowercase_of(x),
        ) ==> spec_fuzzy(t, folded, max).contains(x),
    decreases t,
{
    let out = spec_fuzzy(t, folded, max);
    if t.depth == folded.len() {
        assert(path =~= folded);
        assert(folded.is_prefix_of(path)) by {
            assert(folded =~= path.subrange(0, folded.len() as int));
        }
        lemma_fuzzy_all(t, path, folded, max);
    } else {
        let c = folded[t.depth as int];
        let j = find_child(t.children, c);
        lemma_find_child(t.children, c);
        lemma_wf_children_index(t.children, path);
        lemma_uniq_children_index(t.children);
        assert forall|x: Seq<char>| #[trigger] all_words(t).contains(x) && folded.is_prefix_of(
            lowercase_of(x),
        ) implies out.contains(x) by {
            lemma_add_contains(t.words, all_words_children(t.children), x);
            assert(lowercase_of(x)[t.depth as int] == c) by {
                assert(folded =~= lowercase_of(x).subrange(0, folded.len() as int));
            }
            if t.words.contains(x) {
                // A word stored this high folds to something shorter
                // than the prefix: it cannot match.
                assert(lowercase_of(x) == path);
                assert(false);
            } else {
                lemma_all_words_children_contains(t.children, x);
                let k = choose|k: int|
                    0 <= k < t.children.len() && all_words((#[trigger] t.children[k]).1).contains(
                        x,
                    );
                lemma_all_words_on_path(t.children[k].1, path.push(t.children[k].0));
                assert(path.push(t.children[k].0).is_prefix_of(lowercase_of(x)));
                assert(t.children[k].0 == c) by {
                    let cpath = path.push(t.children[k].0);
                    assert(cpath =~= lowercase_of(x).subrange(0, cpath.len() as int));
                    assert(cpath[t.depth as int] == lowercase_of(x)[t.depth as int]);
                }
                assert(j >= 0);
                assert(k == j) by {
                    if k < j {
                        assert(t.children[k].0 != c);
                    } else if j < k {
                        assert(t.children[j].0 != t.children[k].0);
                    }
                }
                assert(path.push(c) =~= folded.take(t.depth + 1int));
                lemma_fuzzy_complete(t.children[j].1, path.push(c), folded, max);
                assert(spec_fuzzy(t.children[j].1, folded, max).contains(x));
            }
        }
    }
}

/// Every word ever inserted is stored: insertion adds the new word to
/// the trie's contents and keeps every word already there.
pub proof fn lemma_add_stores_word(t: SpecTrie, word: Seq<char>, folded: Seq<char>)
    ensures
        all_words(spec_add(t, word, folded)).contains(word),
        forall|x: Seq<char>| #[trigger] all_words(t).contains(x) ==> all_words(
            spec_add(t, word, folded),
        ).contains(x),
    decreases t,
{
    let r = spec_add(t, word, folded);
    if t.depth >= folded.len() {
        assert(r.words.contains(word)) by {
            assert(r.words[t.words.len() as int] == word);
        }
        lemma_add_contains(r.words, all_words_children(r.children), word);
        assert forall|x: Seq<char>| #[trigger] all_words(t).contains(x) implies all_words(
            r,
        ).contains(x) by {
            lemma_add_contains(t.words, all_words_children(t.children), x);
            if t.words.contains(x) {
                let k = choose|k: int| 0 <= k < t.words.len() && t.words[k] == x;
                assert(r.words[k] == x);
            }
            lemma_add_contains(r.words, all_words_children(r.children), x);
        }
    } else {
        let c = folded[t.depth as int];
        let j = find_child(t.children, c);
        lemma_find_child(t.children, c);
        if j >= 0 {
            lemma_add_stores_word(t.children[j].1, word, folded);
            let sub = spec_add(t.children[j].1, word, folded);
            assert(r.children[j] == (c, sub));
            lemma_all_words_children_contains(r.children, word);
            assert(all_words(r.children[j].1).contains(word));
            lemma_add_contains(r.words, all_words_children(r.children), word);
            assert forall|x: Seq<char>| #[trigger] all_words(t).contains(x) implies all_words(
                r,
            ).contains(x) by {
                lemma_add_contains(t.words, all_words_children(t.children), x);
                lemma_add_contains(r.words, all_words_children(r.children), x);
                lemma_all_words_children_contains(t.children, x);
                lemma_all_words_children_contains(r.children, x);
                if all_words_children(t.children).contains(x) {
                    let k = choose|k: int|
                        0 <= k < t.children.len() && all_words(
                            (#[trigger] t.children[k]).1,
                        ).contains(x);
                    if k == j {
                        assert(all_words(r.children[j].1).contains(x));
                    } else {
                        assert(r.children[k] == t.children[k]);
                        assert(all_words(r.children[k].1).contains(x));
                    }
                }
            }
        } else {
            lemma_chain_stores_word(t.depth + 1, word, folded);
            let chain = spec_chain(t.depth + 1, word, folded);
            assert(r.children[t.children.len() as int] == (c, chain));
            lemma_all_words_children_contains(r.children, word);
            lemma_add_contains(r.words, all_words_children(r.children), word);
            assert forall|x: Seq<char>| #[trigger] all_words(t).contains(x) implies all_words(
                r,
            ).contains(x) by {
                lemma_add_contains(t.words, all_words_children(t.children), x);
                lemma_add_contains(r.words, all_words_children(r.children), x);
                lemma_all_words_children_contains(t.children, x);
                lemma_all_words_children_contains(r.children, x);
                if all_words_children(t.children).contains(x) {
                    let k = choose|k: int|
                        0 <= k < t.children.len() && all_words(
                            (#[trigger] t.children[k]).1,
                        ).contains(x);
                    assert(r.children[k] == t.children[k]);
                    assert(all_words(r.children[k].1).contains(x));
                }
            }
        }
    }
}

/// A fresh chain stores exactly the one word it was built for.
proof fn lemma_chain_stores_word(d: nat, word: Seq<char>, folded: Seq<char>)
    ensures
        all_words(spec_chain(d, word, folded)).contains(word),
    decreases folded.len() - d,
{
    let t = spec_chain(d, word, folded);
    if d >= folded.len() {
        assert(t.words[0] == word);
        lemma_add_contains(t.words, all_words_children(t.children), word);
    } else {
        lemma_chain_stores_word(d + 1, word, folded);
        lemma_all_words_children_contains(t.children, word);
        assert(all_words(t.children[0].1).contains(word));
        lemma_add_contains(t.words, all_words_children(t.children), word);
    }
}

/// A bare node at depth `d`.
pub open spec fn empty_at(d: nat) -> SpecTrie {
    SpecTrie { depth: d, children: Seq::empty(), words: Seq::empty() }
}

/// Converse of `lemma_depths_ok_children_index`.
proof fn lemma_depths_ok_children_from_index(children: Seq<(char, SpecTrie)>, d: nat)
    requires
        forall|k: int| 0 <= k < children.len() ==> (#[trigger] children[k]).1.depth == d
            && depths_ok(children[k].1),
    ensures
        depths_ok_children(children, d),
    decreases children.len(),
{
    if children.len() > 0 {
        let rest = children.subrange(1, children.len() as int);
        assert(forall|k: int| 0 <= k < rest.len() ==> (#[trigger] rest[k]) == children[k + 1]);
        lemma_depths_ok_children_from_index(rest, d);
    }
}

/// A fresh chain is depth-coherent and starts at the requested depth.
proof fn lemma_chain_depths_ok(d: nat, word: Seq<char>, folded: Seq<char>)
    ensures
        depths_ok(spec_chain(d, word, folded)),
        spec_chain(d, word, folded).depth == d,
    decreases folded.len() - d,
{
    if d >= folded.len() {
        let t = spec_chain(d, word, folded);
        lemma_depths_ok_children_from_index(t.children, d + 1);
    } else {
        lemma_chain_depths_ok(d + 1, word, folded);
        let t = spec_chain(d, word, folded);
        assert(t.children[0].1 == spec_chain(d + 1, word, folded));
        lemma_depths_ok_children_from_index(t.children, d + 1);
    }
}

/// Insertion keeps the trie depth-coherent and does not move the node.
proof fn lemma_spec_add_depths_ok(t: SpecTrie, word: Seq<char>, folded: Seq<char>)
    requires
        depths_ok(t),
    ensures
        depths_ok(spec_add(t, word, folded)),
        spec_add(t, word, folded).depth == t.depth,
    decreases t,
{
    if t.depth >= folded.len() {
    } else {
        let c = folded[t.depth as int];
        let j = find_child(t.children, c);
        lemma_find_child(t.children, c);
        lemma_depths_ok_children_index(t.children, t.depth + 1);
        if j >= 0 {
            lemma_spec_add_depths_ok(t.children[j].1, word, folded);
            let updated = t.children.update(j, (c, spec_add(t.children[j].1, word, folded)));
            assert(forall|k: int| 0 <= k < updated.len() ==> (#[trigger] updated[k]).1.depth
                == t.depth + 1 && depths_ok(updated[k].1));
            lemma_depths_ok_children_from_index(updated, t.depth + 1);
        } else {
            lemma_chain_depths_ok(t.depth + 1, word, folded);
            let extended = t.children.push((c, spec_chain(t.depth + 1, word, folded)));
            assert(forall|k: int| 0 <= k < extended.len() ==> (#[trigger] extended[k]).1.depth
                == t.depth + 1 && depths_ok(extended[k].1));
            lemma_depths_ok_children_from_index(extended, t.depth + 1);
        }
    }
}

/// Inserting into a bare node builds exactly the fresh chain.
proof fn lemma_add_into_empty(d: nat, word: Seq<char>, folded: Seq<char>)
    ensures
        spec_add(empty_at(d), word, folded) == spec_chain(d, word, folded),
{
    let t = empty_at(d);
    if d >= folded.len() {
        assert(t.words.push(word) =~= seq![word]);
        assert(spec_add(t, word, folded) == spec_chain(d, word, folded));
    } else {
        let c = folded[d as int];
        assert(find_child(t.children, c) == -1);
        assert(t.children.push((c, spec_chain(d + 1, word, folded))) =~= seq![
            (c, spec_chain(d + 1, word, folded)),
        ]);
        assert(spec_add(t, word, folded) == spec_chain(d, word, folded));
    }
}

/// The autocomplete trie. Each node owns its children; the mapping
/// from next character to child is a small vector in insertion order,
/// which keeps traversal deterministic.
pub struct PrefixTree {
    depth: usize,
    children: Vec<(char, PrefixTree)>,
    words: Vec<String>,
}

/// The ghost shape of an executable trie node.
pub closed spec fn trie_view(t: PrefixTree) -> SpecTrie
    decreases t, 1int,
{
    SpecTrie {
        depth: t.depth as nat,
        children: children_views(t.children@),
        words: t.words@.map_values(|w: String| w@),
    }
}

/// The ghost shapes of a node's children, in order.
pub closed spec fn children_views(s: Seq<(char, PrefixTree)>) -> Seq<(char, SpecTrie)>
    decreases s, 0int,
{
    if s.len() == 0 {
        Seq::empty()
    } else {
        seq![(s[0].0, trie_view(s[0].1))] + children_views(s.subrange(1, s.len() as int))
    }
}

impl View for PrefixTree {
    type V = SpecTrie;

    closed spec fn view(&self) -> SpecTrie {
        trie_view(*self)
    }
}

/// `children_views` maps index-wise.
proof fn lemma_children_views_index(s: Seq<(char, PrefixTree)>)
    ensures
        children_views(s).len() == s.len(),
        forall|k: int| 0 <= k < s.len() ==> children_views(s)[k] == ((#[trigger] s[k]).0,
        trie_view(s[k].1)),
    decreases s.len(),
{
    if s.len() > 0 {
        let rest = s.subrange(1, s.len() as int);
        lemma_children_views_index(rest);
        assert(forall|k: int| 1 <= k < s.len() ==> (#[trigger] s[k]) == rest[k - 1]);
    }
}

/// Replacing one executable child replaces one ghost child.
proof fn lemma_children_views_update(s: Seq<(char, PrefixTree)>, j: int, p: (char, PrefixTree))
    requires
        0 <= j < s.len(),
    ensures
        children_views(s.update(j, p)) == children_views(s).update(j, (p.0, trie_view(p.1))),
{
    lemma_children_views_index(s);
    lemma_children_views_index(s.update(j, p));
    let a = children_views(s.update(j, p));
    let b = children_views(s).update(j, (p.0, trie_view(p.1)));
    assert forall|k: int| 0 <= k < a.len() implies a[k] == b[k] by {
        assert(a[k] == (s.update(j, p)[k].0, trie_view(s.update(j, p)[k].1)));
        if k != j {
            assert(s.update(j, p)[k] == s[k]);
            assert(b[k] == (s[k].0, trie_view(s[k].1)));
        }
    }
    assert(a =~= b);
}

/// Appending one executable child appends one ghost child.
proof fn lemma_children_views_push(s: Seq<(char, PrefixTree)>, p: (char, PrefixTree))
    ensures
        children_views(s.push(p)) == children_views(s).push((p.0, trie_view(p.1))),
{
    lemma_children_views_index(s);
    lemma_children_views_index(s.push(p));
    let a = children_views(s.push(p));
    let b = children_views(s).push((p.0, trie_view(p.1)));
    assert forall|k: int| 0 <= k < a.len() implies a[k] == b[k] by {
        assert(a[k] == (s.push(p)[k].0, trie_view(s.push(p)[k].1)));
        if k < s.len() {
            assert(s.push(p)[k] == s[k]);
            assert(b[k] == (s[k].0, trie_view(s[k].1)));
        } else {
            assert(s.push(p)[k] == p);
        }
    }
    assert(a =~= b);
}

/// Taking views commutes with concatenation.
proof fn lemma_word_views_add(a: Seq<String>, b: Seq<String>)
    ensures
        (a + b).map_values(|w: String| w@) == a.map_values(|w: String| w@) + b.map_values(
            |w: String| w@,
        ),
{
    let lhs = (a + b).map_values(|w: String| w@);
    let rhs = a.map_values(|w: String| w@) + b.map_values(|w: String| w@);
    assert forall|k: int| 0 <= k < lhs.len() implies lhs[k] == rhs[k] by {
        if k < a.len() {
            assert((a + b)[k] == a[k]);
        } else {
            assert((a + b)[k] == b[k - a.len()]);
        }
    }
    assert(lhs =~= rhs);
}

impl PrefixTree {
    /// An empty trie, rooted at depth zero.
    pub fn new() -> (t: PrefixTree)
        ensures
            t@ == empty_trie(),
            depths_ok(t@),
            wf_at(t@, Seq::<char>::empty()),
            uniq_at(t@),
    {
        let t = PrefixTree { depth: 0, children: Vec::new(), words: Vec::new() };
        proof {
            assert(t@.children =~= Seq::<(char, SpecTrie)>::empty());
            assert(t@.words =~= Seq::<Seq<char>>::empty());
            assert(t@ =~= empty_trie());
        }
        t
    }

    /// Index of the first child keyed by `c`, if any.
    fn child_position(&self, c: char) -> (r: Option<usize>)
        ensures
            r is Some ==> r.unwrap() < self.children@.len() && find_child(self@.children, c)
                == r.unwrap() as int,
            r is None ==> find_child(self@.children, c) == -1,
    {
        proof {
            lemma_children_views_index(self.children@);
            lemma_find_child(self@.children, c);
        }
        let n = self.children.len();
        let mut i: usize = 0;
        while i < n
            invariant
                n == self.children@.len(),
                i <= n,
                forall|k: int| 0 <= k < i ==> (#[trigger] self.children@[k]).0 != c,
            decreases n - i,
        {
            if self.children[i].0 == c {
                proof {
                    lemma_children_views_index(self.children@);
                    lemma_find_child(self@.children, c);
                    assert(self@.children[i as int].0 == c);
                    assert forall|k: int| 0 <= k < i implies (#[trigger] self@.children[k]).0
                        != c by {
                        assert(self.children@[k].0 != c);
                        assert(self@.children[k] == (self.children@[k].0, trie_view(
                            self.children@[k].1,
                        )));
                    }
                    assert(find_child(self@.children, c) != -1);
                    let r = find_child(self@.children, c);
                    assert(!(r < i)) by {
                        if 0 <= r < i {
                            assert(self@.children[r].0 == c);
                        }
                    }
                    assert(!(r > i)) by {
                        if r > i {
                            assert(self@.children[i as int].0 != c);
                        }
                    }
                }
                return Some(i);
            }
            i += 1;
        }
        proof {
            lemma_children_views_index(self.children@);
            lemma_find_child(self@.children, c);
            assert forall|k: int| 0 <= k < self@.children.len() implies (
            #[trigger] self@.children[k]).0 != c by {
                assert(self.children@[k].0 != c);
                assert(self@.children[k] == (self.children@[k].0, trie_view(self.children@[k].1)));
            }
            assert(find_child(self@.children, c) == -1) by {
                let r = find_child(self@.children, c);
                if r != -1 {
                    assert(self@.children[r].0 == c);
                }
            }
        }
        None
    }

    /// Insert `word`, whose case-folded form is `folded`, below this
    /// node, descending one `folded` character per level.
    fn add_folded(&mut self, word: String, folded: &Vec<char>)
        requires
            depths_ok(old(self)@),
        ensures
            final(self)@ == spec_add(old(self)@, word@, folded@),
            depths_ok(final(self)@),
        decreases folded@.len() - self.depth,
    {
        proof {
            lemma_spec_add_depths_ok(self@, word@, folded@);
        }
        if self.depth >= folded.len() {
            let ghost old_words = self.words@;
            self.words.push(word);
            proof {
                assert(self.words@.map_values(|w: String| w@) =~= old_words.map_values(
                    |w: String| w@,
                ).push(word@));
                assert(self@ == spec_add(old(self)@, word@, folded@));
            }
        } else {
            let c = folded[self.depth];
            proof {
                lemma_depths_ok_children_index(old(self)@.children, old(self)@.depth + 1);
                lemma_children_views_index(self.children@);
            }
            match self.child_position(c) {
                Some(j) => {
                    let ghost old_children = self.children@;
                    self.children[j].1.add_folded(word, folded);
                    proof {
                        lemma_children_views_index(old_children);
                        lemma_find_child(old(self)@.children, c);
                        assert(old(self)@.children[j as int].0 == c);
                        assert(old_children[j as int].0 == c);
                        let new_child = self.children@[j as int].1;
                        assert(self.children@ =~= old_children.update(j as int, (c, new_child)));
                        lemma_children_views_update(old_children, j as int, (c, new_child));
                        assert(trie_view(new_child) == spec_add(
                            old(self)@.children[j as int].1,
                            word@,
                            folded@,
                        ));
                        assert(self@.children == old(self)@.children.update(
                            j as int,
                            (c, spec_add(old(self)@.children[j as int].1, word@, folded@)),
                        ));
                        assert(self@ == spec_add(old(self)@, word@, folded@));
                    }
                }
                None => {
                    let ghost old_children = self.children@;
                    let fresh = PrefixTree {
                        depth: self.depth + 1,
                        children: Vec::new(),
                        words: Vec::new(),
                    };
                    proof {
                        assert(fresh@.children =~= Seq::<(char, SpecTrie)>::empty());
                        assert(fresh@.words =~= Seq::<Seq<char>>::empty());
                        assert(fresh@ == empty_at(old(self)@.depth + 1));
                        assert(depths_ok(fresh@)) by {
                            lemma_depths_ok_children_from_index(
                                fresh@.children,
                                fresh@.depth + 1,
                            );
                        }
                    }
                    self.children.push((c, fresh));
                    let j = self.children.len() - 1;
                    self.children[j].1.add_folded(word, folded);
                    proof {
                        lemma_add_into_empty(old(self)@.depth + 1, word@, folded@);
                        let new_child = self.children@[j as int].1;
                        assert(trie_view(new_child) == spec_chain(
                            old(self)@.depth + 1,
                            word@,
                            folded@,
                        ));
                        assert(self.children@ =~= old_children.push((c, new_child)));
                        lemma_children_views_push(old_children, (c, new_child));
                        assert(self@.children == old(self)@.children.push(
                            (c, spec_chain(old(self)@.depth + 1, word@, folded@)),
                        ));
                        assert(self@ == spec_add(old(self)@, word@, folded@));
                    }
                }
            }
        }
    }

    /// Autocomplete results below this node for the case-folded prefix
    /// `folded`.
    fn fuzzy_folded(&self, folded: &Vec<char>, max_results: u8) -> (r: Vec<String>)
        ensures
            r@.map_values(|w: String| w@) == spec_fuzzy(self@, folded@, max_results as int),
        decreases *self,
    {
        let ghost goal = spec_fuzzy(self@, folded@, max_results as int);
        let mut matches: Vec<String> = Vec::new();
        proof {
            assert(matches@.map_values(|w: String| w@) =~= Seq::<Seq<char>>::empty());
        }
        if self.depth >= folded.len() {
            // Everything stored right here.
            let n = self.words.len();
            let mut i: usize = 0;
            while i < n
                invariant
                    n == self.words@.len(),
                    i <= n,
                    matches@ == self.words@.take(i as int),
                decreases n - i,
            {
                let ghost pre = matches@;
                matches.push(self.words[i].clone());
                proof {
                    assert(matches@ == pre.push(self.words@[i as int]));
                    assert(matches@ =~= self.words@.take(i + 1));
                }
                i += 1;
            }
            proof {
                assert(self.words@.take(n as int) =~= self.words@);
            }
            // Then every child subtree, in order, until the soft cap.
            let m = self.children.len();
            proof {
                lemma_children_views_index(self.children@);
                assert(self@.words == self.words@.map_values(|w: String| w@));
                assert(matches@.map_values(|w: String| w@) == self@.words);
                assert(self@.children.subrange(0, m as int) =~= self@.children);
                assert(goal == spec_collect(
                    self@.words,
                    self@.children,
                    folded@,
                    max_results as int,
                ));
            }
            let mut k: usize = 0;
            while k < m
                invariant
                    m == self.children@.len(),
                    m == self@.children.len(),
                    k <= m,
                    self.depth >= folded@.len(),
                    goal == spec_fuzzy(self@, folded@, max_results as int),
                    goal == spec_collect(
                        matches@.map_values(|w: String| w@),
                        self@.children.subrange(k as int, m as int),
                        folded@,
                        max_results as int,
                    ),
                decreases m - k,
            {
                let batch = self.children[k].1.fuzzy_folded(folded, max_results);
                let ghost before_vec = matches@;
                let b = batch.len();
                let mut j: usize = 0;
                while j < b
                    invariant
                        b == batch@.len(),
                        j <= b,
                        matches@ == before_vec + batch@.take(j as int),
                    decreases b - j,
                {
                    let ghost pre = matches@;
                    matches.push(batch[j].clone());
                    proof {
                        assert(matches@ == pre.push(batch@[j as int]));
                        assert(matches@ =~= before_vec + batch@.take(j + 1));
                    }
                    j += 1;
                }
                proof {
                    assert(batch@.take(b as int) =~= batch@);
                    assert(matches@ == before_vec + batch@);
                    lemma_word_views_add(before_vec, batch@);
                    lemma_children_views_index(self.children@);
                    let rem = self@.children.subrange(k as int, m as int);
                    assert(rem[0] == self@.children[k as int]);
                    assert(self@.children[k as int].1 == trie_view(self.children@[k as int].1));
                    assert(matches@.map_values(|w: String| w@) == before_vec.map_values(
                        |w: String| w@,
                    ) + spec_fuzzy(rem[0].1, folded@, max_results as int));
                    assert(rem.subrange(1, rem.len() as int) =~= self@.children.subrange(
                        k + 1,
                        m as int,
                    ));
                }
                if matches.len() > max_results as usize {
                    return matches;
                }
                k += 1;
            }
            proof {
                assert(self@.children.subrange(m as int, m as int) =~= Seq::<(
                    char,
                    SpecTrie,
                )>::empty());
            }
            matches
        } else {
            // Descend along the next folded character, or give up.
            let c = folded[self.depth];
            match self.child_position(c) {
                Some(j) => {
                    proof {
                        lemma_children_views_index(self.children@);
                        lemma_find_child(self@.children, c);
                        assert(self@.children[j as int].1 == trie_view(
                            self.children@[j as int].1,
                        ));
                    }
                    self.children[j].1.fuzzy_folded(folded, max_results)
                }
                None => matches,
            }
        }
    }

    /// Autocomplete: all stored words whose case-folded form begins
    /// with the case-folded form of `starting_string`, in trie
    /// traversal order.
    ///
    /// `max_results` is a soft cap: gathering stops after the first
    /// child subtree that pushes the count past it, so the result may
    /// exceed it by the last batch merged in.
    pub fn fuzzy_matches(&self, starting_string: &String, max_results: u8) -> (r: Vec<String>)
        ensures
            r@.map_values(|w: String| w@) == spec_fuzzy(
                self@,
                lowercase_of(starting_string@),
                max_results as int,
            ),
            wf_at(self@, Seq::<char>::empty()) ==> forall|k: int|
                0 <= k < r@.len() ==> lowercase_of(starting_string@).is_prefix_of(
                    lowercase_of((#[trigger] r@[k])@),
                ),
    {
        let folded = fold_chars(starting_string.as_str());
        let r = self.fuzzy_folded(&folded, max_results);
        proof {
            if wf_at(self@, Seq::<char>::empty()) {
                let query = lowercase_of(starting_string@);
                assert(Seq::<char>::empty() =~= query.take(0));
                lemma_fuzzy_sound(self@, Seq::<char>::empty(), query, max_results as int);
                assert forall|k: int| 0 <= k < r@.len() implies query.is_prefix_of(
                    lowercase_of((#[trigger] r@[k])@),
                ) by {
                    assert(r@.map_values(|w: String| w@)[k] == r@[k]@);
                    assert(query.is_prefix_of(
                        lowercase_of(spec_fuzzy(self@, query, max_results as int)[k]),
                    ));
                }
            }
        }
        r
    }

    /// Case-preserving insert of `word`, indexed by its case-folded
    /// characters for traversal.
    pub fn add_word(&mut self, word: String)
        requires
            depths_ok(old(self)@),
        ensures
            final(self)@ == spec_add(old(self)@, word@, lowercase_of(word@)),
            depths_ok(final(self)@),
            wf_at(old(self)@, Seq::<char>::empty()) ==> wf_at(final(self)@, Seq::<char>::empty()),
            uniq_at(old(self)@) ==> uniq_at(final(self)@),
            all_words(final(self)@).contains(word@),
            forall|x: Seq<char>| #[trigger] all_words(old(self)@).contains(x) ==> all_words(
                final(self)@,
            ).contains(x),
    {
        let folded = fold_chars(word.as_str());
        self.add_folded(word, &folded);
        proof {
            if wf_at(old(self)@, Seq::<char>::empty()) {
                lemma_add_word_preserves_wf(old(self)@, word@);
            }
            if uniq_at(old(self)@) {
                lemma_add_uniq(old(self)@, word@, lowercase_of(word@));
            }
            lemma_add_stores_word(old(self)@, word@, lowercase_of(word@));
        }
    }
}

/// One search hit. `relevance` is 1 for the exact-match entry and 0
/// for every prefix match.
#[derive(Clone, Debug)]
pub struct FoodSearchResult {
    pub id: FoodID,
    pub name: String,
    pub relevance: u32,
}

/// The ghost shape of the whole index: the exact-match entries in
/// insertion order (a later entry for the same name shadows an earlier
/// one), and the autocomplete trie.
pub struct SpecIndex {
    pub exact: Seq<(Seq<char>, u64)>,
    pub trie: SpecTrie,
}

/// The id the exact-match index resolves `name` to: that of the last
/// entry bearing `name`, if any.
pub open spec fn spec_lookup(entries: Seq<(Seq<char>, u64)>, name: Seq<char>) -> Option<u64>
    decreases entries.len(),
{
    if entries.len() == 0 {
        None
    } else if entries.last().0 == name {
        Some(entries.last().1)
    } else {
        spec_lookup(entries.drop_last(), name)
    }
}

/// Prefix-match words resolved through the exact-match index, in
/// order; a word with no exact-match entry (a stale index) is dropped.
pub open spec fn spec_resolve(entries: Seq<(Seq<char>, u64)>, words: Seq<Seq<char>>) -> Seq<
    (u64, Seq<char>, u32),
>
    decreases words.len(),
{
    if words.len() == 0 {
        Seq::empty()
    } else {
        spec_resolve(entries, words.drop_last()) + (match spec_lookup(entries, words.last()) {
            Some(id) => seq![(id, words.last(), 0u32)],
            None => Seq::<(u64, Seq<char>, u32)>::empty(),
        })
    }
}

/// The requested cap, defaulting to ten.
pub open spec fn spec_max(max_results: Option<u8>) -> int {
    match max_results {
        Some(m) => m as int,
        None => 10,
    }
}

/// The full search answer: the exact match first (relevance 1, at most
/// once), then every resolvable prefix match (relevance 0), in trie
/// traversal order, not deduplicated against the exact match.
pub open spec fn spec_search(idx: SpecIndex, name: Seq<char>, max: int) -> Seq<
    (u64, Seq<char>, u32),
> {
    (match spec_lookup(idx.exact, name) {
        Some(id) => seq![(id, name, 1u32)],
        None => Seq::<(u64, Seq<char>, u32)>::empty(),
    }) + spec_resolve(idx.exact, spec_fuzzy(idx.trie, lowercase_of(name), max))
}

/// The exact-match entries derived from a food collection: one entry
/// per food, in store order.
pub open spec fn exact_of(foods: Seq<Food>) -> Seq<(Seq<char>, u64)> {
    foods.map_values(|f: Food| (f.name@, f.id))
}

/// The trie derived from a food collection: every name inserted in
/// store order.
pub open spec fn spec_trie_of(foods: Seq<Food>) -> SpecTrie
    decreases foods.len(),
{
    if foods.len() == 0 {
        empty_trie()
    } else {
        spec_add(
            spec_trie_of(foods.drop_last()),
            foods.last().name@,
            lowercase_of(foods.last().name@),
        )
    }
}

/// The whole index derived from a food collection.
pub open spec fn spec_index_of(foods: Seq<Food>) -> SpecIndex {
    SpecIndex { exact: exact_of(foods), trie: spec_trie_of(foods) }
}

/// A derived trie is well-formed: every stored word sits on the path
/// its case fold spells, so `lemma_fuzzy_sound` applies to it.
pub proof fn lemma_trie_of_wf(foods: Seq<Food>)
    ensures
        wf_at(spec_trie_of(foods), Seq::<char>::empty()),
    decreases foods.len(),
{
    if foods.len() == 0 {
        lemma_wf_children_from_index(empty_trie().children, Seq::<char>::empty());
    } else {
        lemma_trie_of_wf(foods.drop_last());
        lemma_add_word_preserves_wf(spec_trie_of(foods.drop_last()), foods.last().name@);
    }
}

/// A derived trie never duplicates a child character.
pub proof fn lemma_trie_of_uniq(foods: Seq<Food>)
    ensures
        uniq_at(spec_trie_of(foods)),
    decreases foods.len(),
{
    if foods.len() == 0 {
        lemma_uniq_children_from_index(empty_trie().children);
    } else {
        lemma_trie_of_uniq(foods.drop_last());
        lemma_add_uniq(
            spec_trie_of(foods.drop_last()),
            foods.last().name@,
            lowercase_of(foods.last().name@),
        );
    }
}

/// A derived trie stores every indexed food name.
pub proof fn lemma_trie_of_stores_names(foods: Seq<Food>, k: int)
    requires
        0 <= k < foods.len(),
    ensures
        all_words(spec_trie_of(foods)).contains(foods[k].name@),
    decreases foods.len(),
{
    if k == foods.len() - 1 {
        lemma_add_stores_word(
            spec_trie_of(foods.drop_last()),
            foods.last().name@,
            lowercase_of(foods.last().name@),
        );
    } else {
        lemma_trie_of_stores_names(foods.drop_last(), k);
        assert(foods.drop_last()[k] == foods[k]);
        lemma_add_stores_word(
            spec_trie_of(foods.drop_last()),
            foods.last().name@,
            lowercase_of(foods.last().name@),
        );
    }
}

/// Prefix correctness of autocomplete over a derived index: whenever
/// the gathered result stayed within the soft cap, the autocomplete
/// answer for a case-folded prefix holds the name of every indexed food
/// whose case-folded name extends it. (Its converse, that every answer
/// extends the prefix, is `lemma_fuzzy_sound`.)
pub proof fn lemma_trie_of_prefix_complete(foods: Seq<Food>, folded: Seq<char>, max: int, k: int)
    requires
        0 <= k < foods.len(),
        folded.is_prefix_of(lowercase_of(foods[k].name@)),
        spec_fuzzy(spec_trie_of(foods), folded, max).len() <= max,
    ensures
        spec_fuzzy(spec_trie_of(foods), folded, max).contains(foods[k].name@),
{
    let t = spec_trie_of(foods);
    lemma_trie_of_wf(foods);
    lemma_trie_of_uniq(foods);
    lemma_trie_of_stores_names(foods, k);
    assert(Seq::<char>::empty() =~= folded.take(0));
    lemma_fuzzy_complete(t, Seq::<char>::empty(), folded, max);
}

/// Every indexed food name resolves through the exact-match entries.
pub proof fn lemma_lookup_exact_of_some(foods: Seq<Food>, k: int)
    requires
        0 <= k < foods.len(),
    ensures
        spec_lookup(exact_of(foods), foods[k].name@) is Some,
    decreases foods.len(),
{
    let entries = exact_of(foods);
    assert(entries.last() == (foods.last().name@, foods.last().id));
    if foods.last().name@ == foods[k].name@ {
    } else {
        assert(k < foods.len() - 1);
        assert(entries.drop_last() =~= exact_of(foods.drop_last()));
        assert(foods.drop_last()[k] == foods[k]);
        lemma_lookup_exact_of_some(foods.drop_last(), k);
    }
}

/// A resolvable word in the autocomplete batch yields an entry in the
/// resolved result.
proof fn lemma_resolve_contains(
    entries: Seq<(Seq<char>, u64)>,
    words: Seq<Seq<char>>,
    w: Seq<char>,
)
    requires
        words.contains(w),
        spec_lookup(entries, w) is Some,
    ensures
        exists|i: int| 0 <= i < spec_resolve(entries, words).len() && (#[trigger] spec_resolve(
            entries,
            words,
        )[i]) == (spec_lookup(entries, w).unwrap(), w, 0u32),
    decreases words.len(),
{
    let out = spec_resolve(entries, words);
    let left = spec_resolve(entries, words.drop_last());
    if words.last() == w {
        assert(out[left.len() as int] == (spec_lookup(entries, w).unwrap(), w, 0u32));
    } else {
        assert(words.drop_last().contains(w)) by {
            let k = choose|k: int| 0 <= k < words.len() && words[k] == w;
            assert(words.drop_last()[k] == w);
        }
        lemma_resolve_contains(entries, words.drop_last(), w);
        let i = choose|i: int|
            0 <= i < left.len() && (#[trigger] left[i]) == (spec_lookup(entries, w).unwrap(), w, 0u32);
        assert(out[i] == left[i]);
    }
}

/// Search over a fresh index misses no matching food: if some food's
/// case-folded name extends the case-folded query and the autocomplete
/// batch stayed within the soft cap, the search answer contains a
/// prefix-match entry bearing that food's name.
pub proof fn lemma_search_complete(foods: Seq<Food>, name: Seq<char>, max: int, k: int)
    requires
        0 <= k < foods.len(),
        lowercase_of(name).is_prefix_of(lowercase_of(foods[k].name@)),
        spec_fuzzy(spec_trie_of(foods), lowercase_of(name), max).len() <= max,
    ensures
        exists|i: int| 0 <= i < spec_search(spec_index_of(foods), name, max).len() && (
        #[trigger] spec_search(spec_index_of(foods), name, max)[i]).1 == foods[k].name@
            && spec_search(spec_index_of(foods), name, max)[i].2 == 0,
{
    let idx = spec_index_of(foods);
    let words = spec_fuzzy(idx.trie, lowercase_of(name), max);
    lemma_trie_of_prefix_complete(foods, lowercase_of(name), max, k);
    lemma_lookup_exact_of_some(foods, k);
    lemma_resolve_contains(idx.exact, words, foods[k].name@);
    let resolved = spec_resolve(idx.exact, words);
    let i = choose|i: int|
        0 <= i < resolved.len() && (#[trigger] resolved[i]) == (
            spec_lookup(idx.exact, foods[k].name@).unwrap(),
            foods[k].name@,
            0u32,
        );
    let out = spec_search(idx, name, max);
    let head_len = out.len() - resolved.len();
    assert(out[head_len + i] == resolved[i]);
}

/// Every resolved prefix match carries relevance 0.
proof fn lemma_resolve_relevance(entries: Seq<(Seq<char>, u64)>, words: Seq<Seq<char>>)
    ensures
        forall|k: int| 0 <= k < spec_resolve(entries, words).len() ==> (#[trigger] spec_resolve(
            entries,
            words,
        )[k]).2 == 0,
    decreases words.len(),
{
    if words.len() > 0 {
        lemma_resolve_relevance(entries, words.drop_last());
        let left = spec_resolve(entries, words.drop_last());
        let whole = spec_resolve(entries, words);
        assert forall|k: int| 0 <= k < whole.len() implies (#[trigger] whole[k]).2 == 0 by {
            if k < left.len() {
                assert(whole[k] == left[k]);
            } else {
                assert(spec_lookup(entries, words.last()) is Some);
                assert(whole[k] == (
                    spec_lookup(entries, words.last()).unwrap(),
                    words.last(),
                    0u32,
                ));
            }
        }
    }
}

/// Search result vector to result views, index-wise.
pub open spec fn result_views(s: Seq<FoodSearchResult>) -> Seq<(u64, Seq<char>, u32)> {
    s.map_values(|x: FoodSearchResult| (x.id, x.name@, x.relevance))
}

/// Taking result views commutes with appending one result.
proof fn lemma_result_views_push(s: Seq<FoodSearchResult>, x: FoodSearchResult)
    ensures
        result_views(s.push(x)) == result_views(s).push((x.id, x.name@, x.relevance)),
{
    let a = result_views(s.push(x));
    let b = result_views(s).push((x.id, x.name@, x.relevance));
    assert forall|k: int| 0 <= k < a.len() implies a[k] == b[k] by {
        if k < s.len() {
            assert(s.push(x)[k] == s[k]);
        } else {
            assert(s.push(x)[k] == x);
        }
    }
    assert(a =~= b);
}

/// Rebuilding the index is idempotent: two indexes derived from the
/// same food collection answer every search query identically, whatever
/// the query and the cap.
pub proof fn lemma_reindex_idempotent(
    i1: SpecIndex,
    i2: SpecIndex,
    foods: Seq<Food>,
    name: Seq<char>,
    max: int,
)
    requires
        i1 == spec_index_of(foods),
        i2 == spec_index_of(foods),
    ensures
        spec_search(i1, name, max) == spec_search(i2, name, max),
{
}

/// The two-tier search index: an exact-match list from name to id,
/// shadow-on-repeat, and the autocomplete trie. Both are derived from
/// the food collection by `reindex` and are never serialized.
pub struct SearchIndex {
    fulltext_index: Vec<(String, FoodID)>,
    autocomplete_index: PrefixTree,
}

/// The ghost shape of the executable index.
pub closed spec fn index_view(si: SearchIndex) -> SpecIndex {
    SpecIndex {
        exact: si.fulltext_index@.map_values(|p: (String, u64)| (p.0@, p.1)),
        trie: trie_view(si.autocomplete_index),
    }
}

impl View for SearchIndex {
    type V = SpecIndex;

    closed spec fn view(&self) -> SpecIndex {
        index_view(*self)
    }
}

impl Default for SearchIndex {
    /// An index over nothing.
    fn default() -> (r: SearchIndex)
        ensures
            r@ == spec_index_of(Seq::<Food>::empty()),
    {
        let r = SearchIndex { fulltext_index: Vec::new(), autocomplete_index: PrefixTree::new() };
        proof {
            assert(r@.exact =~= exact_of(Seq::<Food>::empty()));
        }
        r
    }
}

impl SearchIndex {
    /// An index over nothing.
    pub fn empty() -> (r: SearchIndex)
        ensures
            r@ == spec_index_of(Seq::<Food>::empty()),
    {
        SearchIndex::default()
    }

    /// An index derived from `food_db`.
    pub fn new(food_db: &Vec<Food>) -> (r: SearchIndex)
        ensures
            r@ == spec_index_of(food_db@),
    {
        let mut new_index = SearchIndex::empty();
        new_index.reindex(food_db);
        new_index
    }

    /// Clear and rebuild both tiers from the given food collection.
    /// Must be called after any mutation that changes food names; the
    /// index never updates itself.
    pub fn reindex(&mut self, food_db: &Vec<Food>)
        ensures
            final(self)@ == spec_index_of(food_db@),
    {
        self.fulltext_index = Vec::new();
        self.autocomplete_index = PrefixTree::new();
        let n = food_db.len();
        proof {
            assert(self@.exact =~= exact_of(food_db@.take(0)));
            assert(food_db@.take(0) =~= Seq::<Food>::empty());
        }
        let mut i: usize = 0;
        while i < n
            invariant
                n == food_db@.len(),
                i <= n,
                self@.exact == exact_of(food_db@.take(i as int)),
                self@.trie == spec_trie_of(food_db@.take(i as int)),
                depths_ok(self@.trie),
            decreases n - i,
        {
            let ghost pre = self.fulltext_index@;
            proof {
                assert(self@.exact == pre.map_values(|p: (String, u64)| (p.0@, p.1)));
                assert(pre.map_values(|p: (String, u64)| (p.0@, p.1)).len() == pre.len());
                assert(exact_of(food_db@.take(i as int)).len() == i);
            }
            let food = &food_db[i];
            self.fulltext_index.push((food.name.clone(), food.id));
            self.autocomplete_index.add_word(food.name.clone());
            proof {
                assert(self.fulltext_index@ == pre.push((food_db@[i as int].name, food_db@[
                i as int].id)));
                assert(food_db@.take(i + 1).drop_last() =~= food_db@.take(i as int));
                assert(food_db@.take(i + 1).last() == food_db@[i as int]);
                let goal_exact = exact_of(food_db@.take(i + 1));
                assert forall|k: int| 0 <= k < i + 1 implies goal_exact[k] == self@.exact[k] by {
                    assert(food_db@.take(i + 1)[k] == food_db@[k]);
                    assert(goal_exact[k] == (food_db@[k].name@, food_db@[k].id));
                    assert(self@.exact[k] == (self.fulltext_index@[k].0@, self.fulltext_index@[
                    k].1));
                    if k < i {
                        assert(self.fulltext_index@[k] == pre[k]);
                        assert(exact_of(food_db@.take(i as int))[k] == (food_db@.take(i as int)[
                        k].name@, food_db@.take(i as int)[k].id));
                        assert(food_db@.take(i as int)[k] == food_db@[k]);
                    }
                }
                assert(self@.exact =~= goal_exact);
                assert(self@.trie == spec_trie_of(food_db@.take(i + 1)));
            }
            i += 1;
        }
        proof {
            assert(food_db@.take(n as int) =~= food_db@);
        }
    }

    /// The id the exact-match tier resolves `name` to, if any.
    fn get_exact(&self, name: &String) -> (r: Option<FoodID>)
        ensures
            r == spec_lookup(self@.exact, name@),
    {
        let ghost entries = self@.exact;
        let mut i: usize = self.fulltext_index.len();
        proof {
            assert(entries.take(i as int) =~= entries);
        }
        while i > 0
            invariant
                i <= self.fulltext_index@.len(),
                entries == self@.exact,
                entries.len() == self.fulltext_index@.len(),
                spec_lookup(entries, name@) == spec_lookup(entries.take(i as int), name@),
            decreases i,
        {
            let hit = self.fulltext_index[i - 1].0 == *name;
            proof {
                assert(entries[i - 1] == (self.fulltext_index@[i - 1].0@, self.fulltext_index@[i
                    - 1].1));
                assert(entries.take(i as int).last() == entries[i - 1]);
                assert(entries.take(i as int).drop_last() =~= entries.take(i - 1));
            }
            if hit {
                return Some(self.fulltext_index[i - 1].1);
            }
            i -= 1;
        }
        proof {
            assert(entries.take(0) =~= Seq::<(Seq<char>, u64)>::empty());
        }
        None
    }

    /// Ranked search: the exact case-sensitive match first with
    /// relevance 1, then every autocomplete match that resolves through
    /// the exact-match tier, with relevance 0, in trie traversal order.
    /// `max_results` (default ten) softly caps the autocomplete batch.
    pub fn search(&self, food_name: &String, max_results: Option<u8>) -> (r: Vec<
        FoodSearchResult,
    >)
        ensures
            result_views(r@) == spec_search(self@, food_name@, spec_max(max_results)),
            spec_lookup(self@.exact, food_name@) is Some ==> r@.len() >= 1 && r@[0].relevance == 1
                && r@[0].id == spec_lookup(self@.exact, food_name@).unwrap() && r@[0].name@
                == food_name@,
            spec_lookup(self@.exact, food_name@) is None ==> forall|k: int|
                0 <= k < r@.len() ==> (#[trigger] r@[k]).relevance == 0,
            forall|k: int| 1 <= k < r@.len() ==> (#[trigger] r@[k]).relevance == 0,
    {
        let max = match max_results {
            Some(m) => m,
            None => 10,
        };
        let ghost head = (match spec_lookup(self@.exact, food_name@) {
            Some(id) => seq![(id, food_name@, 1u32)],
            None => Seq::<(u64, Seq<char>, u32)>::empty(),
        });
        let mut matches: Vec<FoodSearchResult> = Vec::new();
        proof {
            assert(result_views(matches@) =~= Seq::<(u64, Seq<char>, u32)>::empty());
        }
        match self.get_exact(food_name) {
            Some(id) => {
                let ghost pre = matches@;
                matches.push(FoodSearchResult { id, name: food_name.clone(), relevance: 1 });
                proof {
                    assert(matches@ == pre.push(matches@.last()));
                    assert(result_views(matches@) =~= head);
                }
            },
            None => {},
        }
        let fuzzy = self.autocomplete_index.fuzzy_matches(food_name, max);
        let ghost words = fuzzy@.map_values(|w: String| w@);
        proof {
            assert(self@.trie == trie_view(self.autocomplete_index));
            assert(words == spec_fuzzy(self@.trie, lowercase_of(food_name@), max as int));
            assert(words.take(0) =~= Seq::<Seq<char>>::empty());
            assert(result_views(matches@) =~= head + spec_resolve(self@.exact, words.take(0)));
        }
        let n = fuzzy.len();
        let mut i: usize = 0;
        while i < n
            invariant
                n == fuzzy@.len(),
                i <= n,
                words == fuzzy@.map_values(|w: String| w@),
                result_views(matches@) == head + spec_resolve(self@.exact, words.take(i as int)),
            decreases n - i,
        {
            let word = &fuzzy[i];
            proof {
                assert(words[i as int] == fuzzy@[i as int]@);
                assert(words.take(i + 1).drop_last() =~= words.take(i as int));
                assert(words.take(i + 1).last() == words[i as int]);
            }
            match self.get_exact(word) {
                Some(id) => {
                    let ghost pre = matches@;
                    let entry = FoodSearchResult { id, name: word.clone(), relevance: 0 };
                    let ghost entry_snapshot = entry;
                    matches.push(entry);
                    proof {
                        assert(matches@ == pre.push(entry_snapshot));
                        lemma_result_views_push(pre, entry_snapshot);
                        assert(entry_snapshot.name@ == words[i as int]);
                        assert(spec_lookup(self@.exact, words[i as int]) == Some(id));
                        assert(spec_resolve(self@.exact, words.take(i + 1)) == spec_resolve(
                            self@.exact,
                            words.take(i as int),
                        ) + seq![(id, words[i as int], 0u32)]);
                        assert(result_views(matches@) =~= head + spec_resolve(
                            self@.exact,
                            words.take(i + 1),
                        ));
                    }
                },
                None => {
                    proof {
                        assert(result_views(matches@) =~= head + spec_resolve(
                            self@.exact,
                            words.take(i + 1),
                        ));
                    }
                },
            }
            i += 1;
        }
        proof {
            assert(words.take(n as int) =~= words);
            lemma_resolve_relevance(self@.exact, words);
            assert forall|k: int| 1 <= k < matches@.len() implies (#[trigger] matches@[
            k]).relevance == 0 by {
                let rv = result_views(matches@);
                assert(rv[k] == (matches@[k].id, matches@[k].name@, matches@[k].relevance));
                if spec_lookup(self@.exact, food_name@) is Some {
                    assert(rv[k] == spec_resolve(self@.exact, words)[k - 1]);
                } else {
                    assert(rv[k] == spec_resolve(self@.exact, words)[k]);
                }
            }
            assert forall|k: int|
                spec_lookup(self@.exact, food_name@) is None && 0 <= k
                    < matches@.len() implies (#[trigger] matches@[k]).relevance == 0 by {
                let rv = result_views(matches@);
                assert(rv[k] == (matches@[k].id, matches@[k].name@, matches@[k].relevance));
                assert(rv[k] == spec_resolve(self@.exact, words)[k]);
            }
            if spec_lookup(self@.exact, food_name@) is Some {
                let rv = result_views(matches@);
                assert(rv[0] == (matches@[0].id, matches@[0].name@, matches@[0].relevance));
                assert(rv[0] == head[0]);
            }
        }
        matches
    }
}

} // verus!
