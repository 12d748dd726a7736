//! Laws of the trie's observable behaviour, stated and proved over the
//! word-set model in which the operation contracts speak: `insert` makes the
//! view `old@.insert(word)`, `delete` makes it `old@.remove(word)`, and
//! `search` returns `@.contains(word)`.

use vstd::prelude::*;

use crate::radix::RadixTrie;
use crate::radix::has_word;

verus! {

/// Round trip: after inserting a non-empty word, a search for that word
/// succeeds, whatever was stored before.
pub proof fn lemma_insert_then_search(words: Set<Seq<char>>, w: Seq<char>)
    requires
        w.len() > 0,
    ensures
        words.insert(w).contains(w),
{
}

/// Negative search: a word is not found in a fresh trie, is not brought in
/// by inserting a different word, and is not found once deleted.
pub proof fn lemma_search_negative(words: Set<Seq<char>>, w: Seq<char>, v: Seq<char>)
    requires
        v != w,
    ensures
        !Set::<Seq<char>>::empty().contains(w),
        words.insert(v).contains(w) == words.contains(w),
        !words.remove(w).contains(w),
{
}

/// Deletion inverts insertion set-wise: after inserting words and deleting
/// one, every other word is still found and the deleted one is not, also
/// when the deleted word is a prefix or an extension of a retained word.
pub proof fn lemma_delete_inverts_insert(words: Set<Seq<char>>, keep: Seq<char>, del: Seq<char>)
    requires
        keep != del,
    ensures
        words.insert(keep).remove(del).contains(keep),
        !words.insert(keep).remove(del).contains(del),
{
}

/// Idempotence: inserting a word twice, or deleting a word twice, leaves
/// the same word set as doing it once.
pub proof fn lemma_idempotent(words: Set<Seq<char>>, w: Seq<char>)
    ensures
        words.insert(w).insert(w) == words.insert(w),
        words.remove(w).remove(w) == words.remove(w),
{
    assert(words.insert(w).insert(w) =~= words.insert(w));
    assert(words.remove(w).remove(w) =~= words.remove(w));
}

/// Empty-input safety: the empty word is never stored in a well-formed
/// trie, so a search for it always fails; the contracts of `insert` and
/// `delete` state directly that an empty word is a no-op.
pub proof fn lemma_empty_never_stored(t: RadixTrie)
    requires
        t.wf(),
    ensures
        !t@.contains(Seq::<char>::empty()),
{
    assert(!has_word(t.root, Seq::<char>::empty()));
}

/// No-op delete safety: deleting a word that is not stored changes nothing,
/// so every previously inserted word is still found.
pub proof fn lemma_delete_absent_is_noop(words: Set<Seq<char>>, w: Seq<char>)
    requires
        !words.contains(w),
    ensures
        words.remove(w) == words,
        forall|v: Seq<char>| #[trigger] words.contains(v) ==> words.remove(w).contains(v),
{
    assert(words.remove(w) =~= words);
}

} // verus!
