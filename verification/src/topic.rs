//! Topics, the storage keys derived from them, and the allow-list that fixes
//! which topics are ingested and queried.

use vstd::prelude::*;
use vstd::utf8::*;
use crate::codec::Encoding;
use crate::text::{bytes_of, copy_range, lemma_ascii_is_utf8, same_bytes, split_fields, text_of};

verus! {

/// The byte `/`, which separates the levels of a topic.
pub const SLASH: u8 = 0x2f;

/// The byte `_`, which stands for `/` in a storage key.
pub const UNDERSCORE: u8 = 0x5f;

/// The byte `,`, which separates the subtopics of a configured list.
pub const COMMA: u8 = 0x2c;

/// Whether `b` is an ASCII letter.
pub open spec fn is_letter(b: u8) -> bool {
    (0x41 <= b <= 0x5a) || (0x61 <= b <= 0x7a)
}

/// Whether `b` is an ASCII digit.
pub open spec fn is_digit(b: u8) -> bool {
    0x30 <= b <= 0x39
}

/// Whether `name` can stand as an identifier in a statement of the store: not
/// empty, made of ASCII letters, digits and `_` alone, and not starting with a
/// digit.
pub open spec fn is_identifier(name: Seq<u8>) -> bool {
    &&& name.len() > 0
    &&& !is_digit(name[0])
    &&& forall|i: int|
        0 <= i < name.len() ==> is_letter(#[trigger] name[i]) || is_digit(name[i]) || name[i]
            == UNDERSCORE
}

/// A subtopic with every `/` replaced by `_`.
pub open spec fn sanitized(subtopic: Seq<u8>) -> Seq<u8> {
    Seq::new(
        subtopic.len(),
        |i: int|
            if subtopic[i] == SLASH {
                UNDERSCORE
            } else {
                subtopic[i]
            },
    )
}

/// Whether a list of subtopics can be an allow-list: every subtopic gives a
/// storage key that is an identifier, and no two give the same key.
pub open spec fn is_allow_list(subtopics: Seq<Seq<u8>>) -> bool {
    &&& forall|i: int|
        0 <= i < subtopics.len() ==> is_identifier(sanitized(#[trigger] subtopics[i]))
    &&& forall|i: int, j: int|
        0 <= i < j < subtopics.len() ==> sanitized(#[trigger] subtopics[i]) != sanitized(
            #[trigger] subtopics[j],
        )
}

/// Whether `topic` is one of `subtopics`.
pub open spec fn is_listed(subtopics: Seq<Seq<u8>>, topic: Seq<u8>) -> bool {
    exists|i: int| 0 <= i < subtopics.len() && #[trigger] subtopics[i] == topic
}

/// Why a subtopic was not taken into an allow-list.
#[derive(Clone, Copy, Debug, PartialEq, Eq, Structural)]
pub enum ConfigError {
    /// The subtopic's storage key would be no identifier.
    InvalidSubtopic,
    /// The subtopic's storage key is that of a subtopic already listed.
    KeyCollision,
}

/// The name under which the store keeps the series of one subtopic.
#[derive(Debug)]
pub struct StorageKey {
    name: Vec<u8>,
}

impl View for StorageKey {
    type V = Seq<u8>;

    closed spec fn view(&self) -> Seq<u8> {
        self.name@
    }
}

impl Clone for StorageKey {
    fn clone(&self) -> (copy: StorageKey)
        ensures
            copy@ == self@,
    {
        StorageKey { name: self.name.clone() }
    }
}

impl StorageKey {
    /// Every storage key is an identifier.
    pub open spec fn wf(&self) -> bool {
        is_identifier(self@)
    }

    /// The storage key of `subtopic`, where it has one.
    pub fn from_subtopic(subtopic: &[u8]) -> (key: Option<StorageKey>)
        ensures
            key is Some <==> is_identifier(sanitized(subtopic@)),
            key matches Some(k) ==> k@ == sanitized(subtopic@) && k.wf(),
    {
        let n = subtopic.len();
        if n == 0 {
            return None;
        }
        let mut name: Vec<u8> = Vec::new();
        let mut i: usize = 0;
        while i < n
            invariant
                n == subtopic@.len(),
                i <= n,
                name@ == sanitized(subtopic@).subrange(0, i as int),
                forall|j: int|
                    0 <= j < i ==> is_letter(#[trigger] name@[j]) || is_digit(name@[j]) || name@[j]
                        == UNDERSCORE,
                i > 0 ==> !is_digit(name@[0]),
            decreases n - i,
        {
            let b = subtopic[i];
            let c = if b == SLASH {
                UNDERSCORE
            } else {
                b
            };
            assert(c == sanitized(subtopic@)[i as int]);
            let letter = (0x41 <= c && c <= 0x5a) || (0x61 <= c && c <= 0x7a);
            let digit = 0x30 <= c && c <= 0x39;
            if !(letter || digit || c == UNDERSCORE) || (i == 0 && digit) {
                return None;
            }
            name.push(c);
            assert(name@ =~= sanitized(subtopic@).subrange(0, i + 1));
            i += 1;
        }
        assert(name@ =~= sanitized(subtopic@));
        Some(StorageKey { name })
    }

    /// The bytes of the key.
    pub fn as_bytes(&self) -> (bytes: &[u8])
        ensures
            bytes@ == self@,
    {
        self.name.as_slice()
    }

    /// The key as text.
    pub open spec fn text(&self) -> Seq<char> {
        decode_utf8(self@)
    }

    /// The key as text.
    pub fn as_str(&self) -> (text: &str)
        requires
            self.wf(),
        ensures
            text@ == self.text(),
            bytes_of(text@) == self@,
    {
        proof {
            lemma_ascii_is_utf8(self@);
        }
        match text_of(self.name.as_slice()) {
            Some(text) => {
                proof {
                    encode_utf8_decode_utf8(text@);
                }
                text
            },
            None => "",
        }
    }
}

/// One subtopic of an allow-list, with its storage key and the encoding of its
/// payloads.
#[derive(Debug)]
struct TopicEntry {
    subtopic: Vec<u8>,
    key: StorageKey,
    encoding: Encoding,
}

/// The subtopics that are ingested and queried, in the order in which they
/// were listed.
#[derive(Debug)]
pub struct AllowList {
    entries: Vec<TopicEntry>,
}

impl Clone for AllowList {
    fn clone(&self) -> (copy: AllowList)
        ensures
            copy.subtopics() == self.subtopics(),
            copy.encodings() == self.encodings(),
            self.wf() ==> copy.wf(),
    {
        let mut entries: Vec<TopicEntry> = Vec::new();
        let mut i: usize = 0;
        while i < self.entries.len()
            invariant
                i <= self.entries@.len(),
                entries@.len() == i,
                forall|j: int|
                    0 <= j < i ==> (#[trigger] entries@[j]).subtopic@ == self.entries@[j].subtopic@
                        && entries@[j].key@ == self.entries@[j].key@ && entries@[j].encoding
                        == self.entries@[j].encoding,
            decreases self.entries@.len() - i,
        {
            let entry = &self.entries[i];
            entries.push(
                TopicEntry {
                    subtopic: copy_range(entry.subtopic.as_slice(), 0, entry.subtopic.len()),
                    key: entry.key.clone(),
                    encoding: entry.encoding,
                },
            );
            assert(entries@[i as int].subtopic@ =~= self.entries@[i as int].subtopic@);
            i += 1;
        }
        let copy = AllowList { entries };
        assert(copy.subtopics() =~= self.subtopics());
        assert(copy.encodings() =~= self.encodings());
        copy
    }
}

impl AllowList {
    /// The listed subtopics, in order.
    pub closed spec fn subtopics(&self) -> Seq<Seq<u8>> {
        Seq::new(self.entries@.len(), |i: int| self.entries@[i].subtopic@)
    }

    /// The encoding of each listed subtopic's payloads, in the same order.
    pub closed spec fn encodings(&self) -> Seq<Encoding> {
        Seq::new(self.entries@.len(), |i: int| self.entries@[i].encoding)
    }

    /// Each entry holds the storage key of its subtopic.
    pub closed spec fn keys_kept(&self) -> bool {
        forall|i: int|
            0 <= i < self.entries@.len() ==> (#[trigger] self.entries@[i]).key@ == sanitized(
                self.entries@[i].subtopic@,
            )
    }

    /// The invariant of an allow-list: its subtopics give identifiers, no two
    /// of them the same.
    pub open spec fn wf(&self) -> bool {
        &&& self.keys_kept()
        &&& self.encodings().len() == self.subtopics().len()
        &&& is_allow_list(self.subtopics())
    }

    /// The index at which `topic` is listed, where it is.
    pub open spec fn index_of(&self, topic: Seq<u8>) -> int {
        choose|i: int| 0 <= i < self.subtopics().len() && #[trigger] self.subtopics()[i] == topic
    }

    /// The encoding of the payloads of `topic`, where it is listed.
    pub open spec fn encoding_of(&self, topic: Seq<u8>) -> Encoding {
        self.encodings()[self.index_of(topic)]
    }

    /// A subtopic is listed once: its index is the one at which it is found.
    pub proof fn lemma_listed_once(&self, i: int)
        requires
            self.wf(),
            0 <= i < self.subtopics().len(),
        ensures
            self.index_of(self.subtopics()[i]) == i,
    {
        let j = self.index_of(self.subtopics()[i]);
        assert(0 <= j < self.subtopics().len() && self.subtopics()[j] == self.subtopics()[i]);
        if i < j {
            assert(sanitized(self.subtopics()[i]) != sanitized(self.subtopics()[j]));
        }
        if j < i {
            assert(sanitized(self.subtopics()[j]) != sanitized(self.subtopics()[i]));
        }
    }

    /// An allow-list without subtopics.
    pub fn new() -> (list: AllowList)
        ensures
            list.wf(),
            list.subtopics() == Seq::<Seq<u8>>::empty(),
            list.encodings() == Seq::<Encoding>::empty(),
    {
        let list = AllowList { entries: Vec::new() };
        assert(list.subtopics() =~= Seq::<Seq<u8>>::empty());
        assert(list.encodings() =~= Seq::<Encoding>::empty());
        list
    }

    /// How many subtopics are listed.
    pub fn len(&self) -> (n: usize)
        ensures
            n == self.subtopics().len(),
    {
        self.entries.len()
    }

    /// The subtopic at `index`.
    pub fn subtopic(&self, index: usize) -> (subtopic: &[u8])
        requires
            index < self.subtopics().len(),
        ensures
            subtopic@ == self.subtopics()[index as int],
    {
        self.entries[index].subtopic.as_slice()
    }

    /// The storage key of the subtopic at `index`.
    pub fn key(&self, index: usize) -> (key: &StorageKey)
        requires
            self.wf(),
            index < self.subtopics().len(),
        ensures
            key@ == sanitized(self.subtopics()[index as int]),
            key.wf(),
    {
        let key = &self.entries[index].key;
        assert(key@ == sanitized(self.subtopics()[index as int]));
        assert(is_identifier(sanitized(self.subtopics()[index as int])));
        key
    }

    /// The encoding of the payloads of the subtopic at `index`.
    pub fn encoding(&self, index: usize) -> (encoding: Encoding)
        requires
            index < self.subtopics().len(),
        ensures
            encoding == self.encodings()[index as int],
    {
        self.entries[index].encoding
    }

    /// Where `subtopic` is listed, if it is.
    pub fn position(&self, subtopic: &[u8]) -> (found: Option<usize>)
        ensures
            found is Some <==> is_listed(self.subtopics(), subtopic@),
            found matches Some(i) ==> i < self.subtopics().len() && self.subtopics()[i as int]
                == subtopic@,
    {
        let mut i: usize = 0;
        while i < self.entries.len()
            invariant
                i <= self.entries@.len(),
                forall|j: int| 0 <= j < i ==> #[trigger] self.subtopics()[j] != subtopic@,
            decreases self.entries@.len() - i,
        {
            if same_bytes(self.entries[i].subtopic.as_slice(), subtopic) {
                assert(self.subtopics()[i as int] == subtopic@);
                return Some(i);
            }
            i += 1;
        }
        None
    }

    /// Whether some listed subtopic has the storage key `key`.
    fn holds_key(&self, key: &StorageKey) -> (held: bool)
        requires
            self.keys_kept(),
        ensures
            held <==> exists|i: int|
                0 <= i < self.subtopics().len() && sanitized(#[trigger] self.subtopics()[i])
                    == key@,
    {
        let mut i: usize = 0;
        while i < self.entries.len()
            invariant
                self.keys_kept(),
                i <= self.entries@.len(),
                forall|j: int|
                    0 <= j < i ==> sanitized(#[trigger] self.subtopics()[j]) != key@,
            decreases self.entries@.len() - i,
        {
            if same_bytes(self.entries[i].key.as_bytes(), key.as_bytes()) {
                assert(sanitized(self.subtopics()[i as int]) == key@);
                return true;
            }
            i += 1;
        }
        false
    }

    /// What stands in the way of listing `subtopic` after `listed`, if
    /// anything does.
    pub open spec fn fault(listed: Seq<Seq<u8>>, subtopic: Seq<u8>) -> Option<ConfigError> {
        if !is_identifier(sanitized(subtopic)) {
            Some(ConfigError::InvalidSubtopic)
        } else if exists|i: int|
            0 <= i < listed.len() && sanitized(#[trigger] listed[i]) == sanitized(subtopic) {
            Some(ConfigError::KeyCollision)
        } else {
            None
        }
    }

    /// Lists one more subtopic. The list is left as it was where the subtopic
    /// is refused.
    pub fn insert(&mut self, subtopic: &[u8], encoding: Encoding) -> (outcome: Result<
        (),
        ConfigError,
    >)
        requires
            old(self).wf(),
        ensures
            final(self).wf(),
            (match Self::fault(old(self).subtopics(), subtopic@) {
                Some(e) => outcome == Err::<(), ConfigError>(e) && final(self).subtopics() == old(
                    self,
                ).subtopics() && final(self).encodings() == old(self).encodings(),
                None => outcome is Ok && final(self).subtopics() == old(self).subtopics().push(
                    subtopic@,
                ) && final(self).encodings() == old(self).encodings().push(encoding),
            }),
    {
        let key = match StorageKey::from_subtopic(subtopic) {
            Some(key) => key,
            None => {
                return Err(ConfigError::InvalidSubtopic);
            },
        };
        if self.holds_key(&key) {
            return Err(ConfigError::KeyCollision);
        }
        let ghost before = *self;
        let entry = TopicEntry { subtopic: copy_range(subtopic, 0, subtopic.len()), key, encoding };
        assert(entry.subtopic@ =~= subtopic@);
        self.entries.push(entry);
        proof {
            assert(self.subtopics() =~= before.subtopics().push(subtopic@));
            assert(self.encodings() =~= before.encodings().push(encoding));
            assert forall|i: int, j: int| 0 <= i < j < self.subtopics().len() implies sanitized(
                #[trigger] self.subtopics()[i],
            ) != sanitized(#[trigger] self.subtopics()[j]) by {
                if j < before.subtopics().len() {
                    assert(self.subtopics()[i] == before.subtopics()[i]);
                    assert(self.subtopics()[j] == before.subtopics()[j]);
                } else {
                    assert(self.subtopics()[i] == before.subtopics()[i]);
                }
            }
            assert forall|i: int| 0 <= i < self.subtopics().len() implies is_identifier(
                sanitized(#[trigger] self.subtopics()[i]),
            ) by {
                if i < before.subtopics().len() {
                    assert(self.subtopics()[i] == before.subtopics()[i]);
                }
            }
        }
        Ok(())
    }

    /// What stands in the way of making an allow-list of `subtopics`, if
    /// anything does: the fault of the first subtopic that cannot be listed
    /// after those before it.
    pub open spec fn first_fault(subtopics: Seq<Seq<u8>>) -> Option<ConfigError>
        decreases subtopics.len(),
    {
        if subtopics.len() == 0 {
            None
        } else {
            match Self::first_fault(subtopics.drop_last()) {
                Some(e) => Some(e),
                None => Self::fault(subtopics.drop_last(), subtopics.last()),
            }
        }
    }

    /// Makes an allow-list of subtopics that all have the same encoding.
    pub fn from_subtopics(subtopics: &Vec<Vec<u8>>, encoding: Encoding) -> (outcome: Result<
        AllowList,
        ConfigError,
    >)
        ensures
            (match Self::first_fault(subtopics.deep_view()) {
                Some(e) => outcome == Err::<AllowList, ConfigError>(e),
                None => outcome matches Ok(list) && list.wf() && list.subtopics()
                    == subtopics.deep_view() && list.encodings() == Seq::new(
                    subtopics@.len(),
                    |i: int| encoding,
                ),
            }),
    {
        let mut list = AllowList::new();
        let mut i: usize = 0;
        while i < subtopics.len()
            invariant
                i <= subtopics@.len(),
                list.wf(),
                list.subtopics() == subtopics.deep_view().subrange(0, i as int),
                list.encodings() == Seq::new(i as nat, |j: int| encoding),
                Self::first_fault(subtopics.deep_view().subrange(0, i as int)) is None,
            decreases subtopics@.len() - i,
        {
            let ghost all = subtopics.deep_view();
            proof {
                crate::text::lemma_deep_view_bytes(subtopics@[i as int]);
                assert(all.subrange(0, i + 1).drop_last() =~= all.subrange(0, i as int));
                assert(all.subrange(0, i + 1).last() == subtopics@[i as int]@);
            }
            match list.insert(subtopics[i].as_slice(), encoding) {
                Ok(()) => {},
                Err(e) => {
                    proof {
                        Self::lemma_fault_stays(all, i + 1);
                    }
                    return Err(e);
                },
            }
            proof {
                assert(list.subtopics() =~= all.subrange(0, i + 1));
                assert(list.encodings() =~= Seq::new((i + 1) as nat, |j: int| encoding));
            }
            i += 1;
        }
        proof {
            assert(subtopics.deep_view().subrange(0, i as int) =~= subtopics.deep_view());
        }
        Ok(list)
    }

    /// A fault among the first `k` subtopics is the fault of the whole list.
    pub proof fn lemma_fault_stays(subtopics: Seq<Seq<u8>>, k: int)
        requires
            0 <= k <= subtopics.len(),
            Self::first_fault(subtopics.subrange(0, k)) is Some,
        ensures
            Self::first_fault(subtopics) == Self::first_fault(subtopics.subrange(0, k)),
        decreases subtopics.len() - k,
    {
        if k < subtopics.len() {
            assert(subtopics.subrange(0, k + 1).drop_last() =~= subtopics.subrange(0, k));
            Self::lemma_fault_stays(subtopics, k + 1);
        } else {
            assert(subtopics.subrange(0, k) =~= subtopics);
        }
    }

    /// Makes an allow-list of a configured list of subtopics, which commas
    /// separate, all with the same encoding.
    pub fn from_config(list: &str, encoding: Encoding) -> (outcome: Result<AllowList, ConfigError>)
        ensures
            (match Self::first_fault(split_on_commas(list@)) {
                Some(e) => outcome == Err::<AllowList, ConfigError>(e),
                None => outcome matches Ok(made) && made.wf() && made.subtopics()
                    == split_on_commas(list@) && made.encodings() == Seq::new(
                    split_on_commas(list@).len(),
                    |i: int| encoding,
                ),
            }),
    {
        let fields = split_fields(list.as_bytes(), COMMA);
        Self::from_subtopics(&fields, encoding)
    }

    /// Sets the encoding of the payloads of the subtopic at `index`.
    pub fn set_encoding(&mut self, index: usize, encoding: Encoding)
        requires
            old(self).wf(),
            index < old(self).subtopics().len(),
        ensures
            final(self).wf(),
            final(self).subtopics() == old(self).subtopics(),
            final(self).encodings() == old(self).encodings().update(index as int, encoding),
    {
        let ghost before = *self;
        self.entries[index].encoding = encoding;
        proof {
            assert(self.entries@.len() == before.entries@.len());
            assert forall|i: int| 0 <= i < self.entries@.len() implies self.entries@[i].subtopic
                == before.entries@[i].subtopic && self.entries@[i].key == before.entries@[i].key by {}
            assert(self.subtopics() =~= before.subtopics());
            assert(self.encodings() =~= before.encodings().update(index as int, encoding));
        }
    }
}

/// The subtopics of a configured list: the pieces of its text between commas.
pub open spec fn split_on_commas(list: Seq<char>) -> Seq<Seq<u8>> {
    crate::text::split_on(crate::text::bytes_of(list), COMMA)
}

} // verus!
