//! The chat store: one append-only log of messages per unordered pair of
//! handles. A pair is put into canonical order by [`normalize_key`], so the
//! pair (A, B) and the pair (B, A) reach the same log.

use vstd::prelude::*;
use crate::order::{chars_le, lemma_chars_le_antisymmetric, lemma_chars_le_total, str_le};
use crate::protocol::{messages_view, Message, MessageView};

verus! {

/// The canonical identifier of the log two handles share: the two handles,
/// in lexicographic order.
pub struct ChatKey {
    pub first: String,
    pub second: String,
}

impl View for ChatKey {
    type V = (Seq<char>, Seq<char>);

    open spec fn view(&self) -> (Seq<char>, Seq<char>) {
        (self.first@, self.second@)
    }
}

/// The canonical order of two handle contents.
pub open spec fn spec_normalize(a: Seq<char>, b: Seq<char>) -> (Seq<char>, Seq<char>) {
    if chars_le(a, b) {
        (a, b)
    } else {
        (b, a)
    }
}

/// Normalizing does not depend on the order of the two handles.
pub proof fn lemma_normalize_symmetric(a: Seq<char>, b: Seq<char>)
    ensures
        spec_normalize(a, b) == spec_normalize(b, a),
{
    lemma_chars_le_total(a, b);
    if chars_le(a, b) && chars_le(b, a) {
        lemma_chars_le_antisymmetric(a, b);
    }
}

/// A chat log reached via either ordering of the two handles is the same
/// log with identical contents.
pub proof fn lemma_log_order_independent(
    m: Map<(Seq<char>, Seq<char>), Seq<MessageView>>,
    a: Seq<char>,
    b: Seq<char>,
)
    ensures
        log_of(m, spec_normalize(a, b)) == log_of(m, spec_normalize(b, a)),
{
    lemma_normalize_symmetric(a, b);
}

/// Puts two handles into canonical order: the same key comes back whichever
/// way round the handles are given. Two equal handles normalize to the pair
/// of that handle with itself, so a handle may keep a self-notes log.
pub fn normalize_key(s1: &str, s2: &str) -> (k: ChatKey)
    ensures
        k@ == spec_normalize(s1@, s2@),
        k@ == spec_normalize(s2@, s1@),
        chars_le(k@.0, k@.1),
{
    proof {
        lemma_normalize_symmetric(s1@, s2@);
        lemma_chars_le_total(s1@, s2@);
    }
    if str_le(s1, s2) {
        ChatKey { first: s1.to_owned(), second: s2.to_owned() }
    } else {
        ChatKey { first: s2.to_owned(), second: s1.to_owned() }
    }
}

/// One log: its key and its messages, oldest first.
struct ChatEntry {
    key: ChatKey,
    messages: Vec<Message>,
}

/// The view of one log's messages.
spec fn entry_log(e: ChatEntry) -> Seq<MessageView> {
    messages_view(e.messages@)
}

/// The map a sequence of chat entries stands for, later entries winning.
spec fn chats_map(s: Seq<ChatEntry>) -> Map<(Seq<char>, Seq<char>), Seq<MessageView>>
    decreases s.len(),
{
    if s.len() == 0 {
        Map::empty()
    } else {
        chats_map(s.drop_last()).insert(s.last().key@, entry_log(s.last()))
    }
}

/// No two entries claim the same key.
spec fn chats_distinct(s: Seq<ChatEntry>) -> bool {
    forall|i: int, j: int| 0 <= i < j < s.len() ==> s[i].key@ != s[j].key@
}

/// A key is in the map exactly when some entry carries it.
proof fn lemma_chats_map_domain(s: Seq<ChatEntry>, k: (Seq<char>, Seq<char>))
    ensures
        chats_map(s).contains_key(k) <==> exists|i: int| 0 <= i < s.len() && s[i].key@ == k,
    decreases s.len(),
{
    if s.len() > 0 {
        lemma_chats_map_domain(s.drop_last(), k);
        if chats_map(s).contains_key(k) && s.last().key@ != k {
            let i = choose|i: int| 0 <= i < s.drop_last().len() && s.drop_last()[i].key@ == k;
            assert(s[i].key@ == k);
        }
        if exists|i: int| 0 <= i < s.len() && s[i].key@ == k {
            let i = choose|i: int| 0 <= i < s.len() && s[i].key@ == k;
            if i < s.len() - 1 {
                assert(s.drop_last()[i].key@ == k);
            }
        }
    }
}

/// With distinct keys, the map sends each entry's key to its log.
proof fn lemma_chats_map_index(s: Seq<ChatEntry>, i: int)
    requires
        chats_distinct(s),
        0 <= i < s.len(),
    ensures
        chats_map(s).contains_key(s[i].key@),
        chats_map(s)[s[i].key@] == entry_log(s[i]),
    decreases s.len(),
{
    if i < s.len() - 1 {
        assert(chats_distinct(s.drop_last()));
        assert(s.drop_last()[i] == s[i]);
        lemma_chats_map_index(s.drop_last(), i);
        assert(s.last().key@ != s[i].key@);
    }
}

/// Replacing the entry at `i` by one with the same key updates just that
/// key's log in the map.
proof fn lemma_chats_map_update(s: Seq<ChatEntry>, i: int, e: ChatEntry)
    requires
        chats_distinct(s),
        0 <= i < s.len(),
        e.key@ == s[i].key@,
    ensures
        chats_map(s.update(i, e)) == chats_map(s).insert(e.key@, entry_log(e)),
    decreases s.len(),
{
    let k = s[i].key@;
    if i == s.len() - 1 {
        assert(s.update(i, e).drop_last() =~= s.drop_last());
        assert(s.update(i, e).last() == e);
        assert(chats_map(s.drop_last()).insert(k, entry_log(e)) =~= chats_map(
            s.drop_last(),
        ).insert(k, entry_log(s.last())).insert(k, entry_log(e)));
    } else {
        assert(chats_distinct(s.drop_last()));
        assert(s.drop_last()[i] == s[i]);
        lemma_chats_map_update(s.drop_last(), i, e);
        assert(s.update(i, e).drop_last() =~= s.drop_last().update(i, e));
        assert(s.update(i, e).last() == s.last());
        let last = s.last();
        assert(last.key@ != k);
        assert(chats_map(s.drop_last()).insert(k, entry_log(e)).insert(last.key@, entry_log(last))
            =~= chats_map(s.drop_last()).insert(last.key@, entry_log(last)).insert(
            k,
            entry_log(e),
        ));
    }
}

/// The log stored under `k`, or the empty log when `k` has none yet.
pub open spec fn log_of(
    m: Map<(Seq<char>, Seq<char>), Seq<MessageView>>,
    k: (Seq<char>, Seq<char>),
) -> Seq<MessageView> {
    if m.contains_key(k) {
        m[k]
    } else {
        Seq::empty()
    }
}

/// An element-for-element copy of a message log.
fn copy_messages(v: &Vec<Message>) -> (r: Vec<Message>)
    ensures
        r@ == v@,
{
    let mut out: Vec<Message> = Vec::new();
    let n = v.len();
    for i in 0..n
        invariant
            n == v@.len(),
            out@.len() == i,
            forall|j: int| 0 <= j < i ==> out@[j] == v@[j],
    {
        out.push(
            Message { sender: v[i].sender.clone(), content: v[i].content.clone() },
        );
    }
    proof {
        assert(out@ =~= v@);
    }
    out
}

/// The chat store, viewed as a map from canonical keys to message logs.
pub struct ChatStore {
    entries: Vec<ChatEntry>,
}

impl View for ChatStore {
    type V = Map<(Seq<char>, Seq<char>), Seq<MessageView>>;

    closed spec fn view(&self) -> Map<(Seq<char>, Seq<char>), Seq<MessageView>> {
        chats_map(self.entries@)
    }
}

impl ChatStore {
    /// The store keeps one log per key.
    pub closed spec fn wf(&self) -> bool {
        chats_distinct(self.entries@)
    }

    /// A fresh store holds no log.
    pub fn new() -> (r: ChatStore)
        ensures
            r.wf(),
            r@ == Map::<(Seq<char>, Seq<char>), Seq<MessageView>>::empty(),
    {
        ChatStore { entries: Vec::new() }
    }

    /// The index of the entry for `key`, if one exists.
    fn find(&self, key: &ChatKey) -> (r: Option<usize>)
        ensures
            r matches Some(i) ==> i < self.entries@.len() && self.entries@[i as int].key@ == key@,
            r is None ==> forall|i: int|
                0 <= i < self.entries@.len() ==> self.entries@[i].key@ != key@,
    {
        let n = self.entries.len();
        for i in 0..n
            invariant
                n == self.entries@.len(),
                forall|j: int| 0 <= j < i ==> self.entries@[j].key@ != key@,
        {
            if self.entries[i].key.first == key.first && self.entries[i].key.second == key.second {
                return Some(i);
            }
        }
        None
    }

    /// Appends `msg` to the log under `key`, creating the log first when
    /// `key` has none: the new state maps `key` to its old log extended by
    /// `msg`, and no other log moves.
    pub fn append(&mut self, key: &ChatKey, msg: Message)
        requires
            old(self).wf(),
        ensures
            final(self).wf(),
            final(self)@ == old(self)@.insert(key@, log_of(old(self)@, key@).push(msg@)),
    {
        proof {
            lemma_chats_map_domain(self.entries@, key@);
        }
        match self.find(key) {
            Some(i) => {
                proof {
                    lemma_chats_map_index(self.entries@, i as int);
                }
                let ghost before = self.entries@;
                let ghost old_entry = self.entries@[i as int];
                let entry = &mut self.entries[i];
                entry.messages.push(msg);
                proof {
                    let new_entry = self.entries@[i as int];
                    assert(self.entries@ =~= before.update(i as int, new_entry));
                    assert(entry_log(new_entry) =~= entry_log(old_entry).push(msg@));
                    lemma_chats_map_update(before, i as int, new_entry);
                }
            },
            None => {
                let ghost before = self.entries@;
                let mut messages: Vec<Message> = Vec::new();
                messages.push(msg);
                self.entries.push(ChatEntry { key: ChatKey {
                    first: key.first.clone(),
                    second: key.second.clone(),
                }, messages });
                proof {
                    assert(self.entries@.drop_last() =~= before);
                    assert(entry_log(self.entries@.last()) =~= Seq::<
                        MessageView,
                    >::empty().push(msg@));
                }
            },
        }
    }

    /// A point-in-time copy of the log under `key`: empty when no log
    /// exists, and no log is created by asking.
    pub fn get_log(&self, key: &ChatKey) -> (r: Vec<Message>)
        requires
            self.wf(),
        ensures
            messages_view(r@) == log_of(self@, key@),
    {
        proof {
            lemma_chats_map_domain(self.entries@, key@);
        }
        match self.find(key) {
            Some(i) => {
                proof {
                    lemma_chats_map_index(self.entries@, i as int);
                }
                copy_messages(&self.entries[i].messages)
            },
            None => {
                proof {
                    assert(messages_view(Seq::<Message>::empty()) =~= Seq::<MessageView>::empty());
                }
                Vec::new()
            },
        }
    }

    /// Whether a log exists under `key`.
    pub fn has_log(&self, key: &ChatKey) -> (r: bool)
        requires
            self.wf(),
        ensures
            r == self@.contains_key(key@),
    {
        proof {
            lemma_chats_map_domain(self.entries@, key@);
        }
        self.find(key).is_some()
    }
}

} // verus!
