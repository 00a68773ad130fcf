//! Messages, the key→message table that every format stores, and the file formats.
use vstd::prelude::*;

verus! {

/// A normalised message entry used across all file formats.
/// `text` is the string to translate; `note` is optional metadata
/// passed through verbatim (e.g. FormatJS `description`).
#[derive(Debug, Clone)]
pub struct FormattedMessage {
    pub text: String,
    pub note: Option<String>,
}

/// A message as plain values: its text and its note.
pub type MessageView = (Seq<char>, Option<Seq<char>>);

impl View for FormattedMessage {
    type V = MessageView;

    open spec fn view(&self) -> MessageView {
        (self.text@, self.note.deep_view())
    }
}

/// A copy of an optional string.
pub fn copy_note(note: &Option<String>) -> (r: Option<String>)
    ensures
        r.deep_view() == note.deep_view(),
{
    match note {
        Some(n) => Some(n.clone()),
        None => None,
    }
}

impl FormattedMessage {
    /// A copy of this message.
    pub fn duplicate(&self) -> (r: FormattedMessage)
        ensures
            r@ == self@,
    {
        FormattedMessage { text: self.text.clone(), note: copy_note(&self.note) }
    }
}

/// Wire representation of a FormatJS / React-Intl message descriptor
/// (`defaultMessage` and the optional `description`).
#[derive(Debug, Clone)]
pub struct FormatJSWire {
    pub default_message: String,
    pub description: Option<String>,
}

impl FormatJSWire {
    /// The message this descriptor carries: the default message is the text,
    /// the description the note.
    pub fn into_message(self) -> (r: FormattedMessage)
        ensures
            r@ == (self.default_message@, self.description.deep_view()),
    {
        FormattedMessage { text: self.default_message, note: self.description }
    }

    /// The descriptor of a message.
    pub fn from_message(m: &FormattedMessage) -> (r: FormatJSWire)
        ensures
            r.default_message@ == m@.0,
            r.description.deep_view() == m@.1,
    {
        FormatJSWire { default_message: m.text.clone(), description: copy_note(&m.note) }
    }
}

/// No key occurs twice in the sequence of entries.
pub open spec fn unique_keys<V>(s: Seq<(Seq<char>, V)>) -> bool {
    forall|i: int, j: int| 0 <= i < j < s.len() ==> #[trigger] s[i].0 != #[trigger] s[j].0
}

/// The value stored under `k`, looked up from the last entry backwards.
pub open spec fn lookup<V>(s: Seq<(Seq<char>, V)>, k: Seq<char>) -> Option<V>
    decreases s.len(),
{
    if s.len() == 0 {
        None
    } else if s.last().0 == k {
        Some(s.last().1)
    } else {
        lookup(s.drop_last(), k)
    }
}

/// Whether some entry has key `k`.
pub open spec fn has_key<V>(s: Seq<(Seq<char>, V)>, k: Seq<char>) -> bool {
    exists|i: int| 0 <= i < s.len() && #[trigger] s[i].0 == k
}

/// The entries after storing `v` under `k`: an entry with that key is replaced
/// in place, otherwise the new entry goes last.
pub open spec fn with_entry<V>(s: Seq<(Seq<char>, V)>, k: Seq<char>, v: V) -> Seq<(Seq<char>, V)> {
    if has_key(s, k) {
        let i = choose|i: int| 0 <= i < s.len() && #[trigger] s[i].0 == k;
        s.update(i, (k, v))
    } else {
        s.push((k, v))
    }
}

/// The entries obtained by storing each pair in turn, from first to last.
pub open spec fn entries_from<V>(pairs: Seq<(Seq<char>, V)>) -> Seq<(Seq<char>, V)>
    decreases pairs.len(),
{
    if pairs.len() == 0 {
        Seq::empty()
    } else {
        let p = pairs.last();
        with_entry(entries_from(pairs.drop_last()), p.0, p.1)
    }
}

/// The entries as a map from key to value.
pub open spec fn as_map<V>(s: Seq<(Seq<char>, V)>) -> Map<Seq<char>, V> {
    Map::new(|k: Seq<char>| has_key(s, k), |k: Seq<char>| lookup(s, k).unwrap())
}

/// With unique keys, the value read under an entry's key is that entry's value.
pub proof fn lemma_lookup_index<V>(s: Seq<(Seq<char>, V)>, i: int)
    requires
        unique_keys(s),
        0 <= i < s.len(),
    ensures
        lookup(s, s[i].0) == Some(s[i].1),
    decreases s.len(),
{
    if i != s.len() - 1 {
        let t = s.drop_last();
        assert(t[i] == s[i]);
        lemma_lookup_index(t, i);
    }
}

/// A key that no entry has reads as nothing.
pub proof fn lemma_lookup_absent<V>(s: Seq<(Seq<char>, V)>, k: Seq<char>)
    requires
        !has_key(s, k),
    ensures
        lookup(s, k) is None,
    decreases s.len(),
{
    if s.len() > 0 {
        let t = s.drop_last();
        if has_key(t, k) {
            let i = choose|i: int| 0 <= i < t.len() && #[trigger] t[i].0 == k;
            assert(s[i].0 == k);
        }
        assert(s[s.len() - 1].0 != k);
        lemma_lookup_absent(t, k);
    }
}

/// Storing under `k` keeps the keys unique; a read of `k` then gives back `v`,
/// and a read of any other key gives what it gave before.
pub proof fn lemma_with_entry<V>(s: Seq<(Seq<char>, V)>, k: Seq<char>, v: V)
    requires
        unique_keys(s),
    ensures
        unique_keys(with_entry(s, k, v)),
        lookup(with_entry(s, k, v), k) == Some(v),
        forall|k2: Seq<char>| k2 != k ==> lookup(with_entry(s, k, v), k2) == lookup(s, k2),
        has_key(s, k) ==> with_entry(s, k, v).len() == s.len(),
        !has_key(s, k) ==> with_entry(s, k, v).len() == s.len() + 1,
{
    let r = with_entry(s, k, v);
    if has_key(s, k) {
        let i = choose|i: int| 0 <= i < s.len() && #[trigger] s[i].0 == k;
        assert(unique_keys(r)) by {
            assert forall|a: int, b: int| 0 <= a < b < r.len() implies #[trigger] r[a].0
                != #[trigger] r[b].0 by {
                if a != i && b != i {
                    assert(r[a] == s[a] && r[b] == s[b]);
                } else if a == i {
                    assert(r[b] == s[b]);
                } else {
                    assert(r[a] == s[a]);
                }
            }
        }
        lemma_lookup_index(r, i);
        assert forall|k2: Seq<char>| k2 != k implies lookup(r, k2) == lookup(s, k2) by {
            if has_key(s, k2) {
                let j = choose|j: int| 0 <= j < s.len() && #[trigger] s[j].0 == k2;
                lemma_lookup_index(s, j);
                assert(r[j] == s[j]);
                lemma_lookup_index(r, j);
            } else {
                lemma_lookup_absent(s, k2);
                if has_key(r, k2) {
                    let j = choose|j: int| 0 <= j < r.len() && #[trigger] r[j].0 == k2;
                    assert(j != i);
                    assert(s[j].0 == k2);
                }
                lemma_lookup_absent(r, k2);
            }
        }
    } else {
        assert(unique_keys(r)) by {
            assert forall|a: int, b: int| 0 <= a < b < r.len() implies #[trigger] r[a].0
                != #[trigger] r[b].0 by {
                if b == s.len() {
                    assert(r[a] == s[a]);
                } else {
                    assert(r[a] == s[a] && r[b] == s[b]);
                }
            }
        }
        assert(r.drop_last() =~= s);
    }
}

/// Storing pairs in turn never gives two entries the same key.
pub proof fn lemma_entries_from_unique<V>(pairs: Seq<(Seq<char>, V)>)
    ensures
        unique_keys(entries_from(pairs)),
    decreases pairs.len(),
{
    if pairs.len() > 0 {
        lemma_entries_from_unique(pairs.drop_last());
        let p = pairs.last();
        lemma_with_entry(entries_from(pairs.drop_last()), p.0, p.1);
    }
}

/// Distinct keys stored in turn come out in the order they were given.
pub proof fn lemma_entries_from_distinct<V>(pairs: Seq<(Seq<char>, V)>)
    requires
        unique_keys(pairs),
    ensures
        entries_from(pairs) == pairs,
    decreases pairs.len(),
{
    if pairs.len() > 0 {
        let t = pairs.drop_last();
        assert(unique_keys(t)) by {
            assert forall|a: int, b: int| 0 <= a < b < t.len() implies #[trigger] t[a].0
                != #[trigger] t[b].0 by {
                assert(t[a] == pairs[a] && t[b] == pairs[b]);
            }
        }
        lemma_entries_from_distinct(t);
        let p = pairs.last();
        if has_key(t, p.0) {
            let i = choose|i: int| 0 <= i < t.len() && #[trigger] t[i].0 == p.0;
            assert(pairs[i].0 == pairs[pairs.len() - 1].0);
        }
        assert(t.push(p) =~= pairs);
    }
}

/// The message table of a file: one message per key, in the order in which the
/// keys were first stored.
#[derive(Debug)]
pub struct MessageMap {
    entries: Vec<(String, FormattedMessage)>,
}

/// An entry as plain values.
pub open spec fn entry_view(e: (String, FormattedMessage)) -> (Seq<char>, MessageView) {
    (e.0@, e.1@)
}

impl View for MessageMap {
    type V = Seq<(Seq<char>, MessageView)>;

    closed spec fn view(&self) -> Seq<(Seq<char>, MessageView)> {
        self.entries@.map_values(|e: (String, FormattedMessage)| entry_view(e))
    }
}

impl MessageMap {
    #[verifier::type_invariant]
    spec fn keys_unique(self) -> bool {
        unique_keys(self@)
    }

    /// An empty table.
    pub fn new() -> (r: MessageMap)
        ensures
            r@ == Seq::<(Seq<char>, MessageView)>::empty(),
    {
        let r = MessageMap { entries: Vec::new() };
        assert(r@ =~= Seq::<(Seq<char>, MessageView)>::empty());
        r
    }

    /// The number of messages.
    pub fn len(&self) -> (r: usize)
        ensures
            r == self@.len(),
            unique_keys(self@),
    {
        proof {
            use_type_invariant(self);
        }
        self.entries.len()
    }

    /// The entries, in order.
    pub fn entries(&self) -> (r: &Vec<(String, FormattedMessage)>)
        ensures
            r@.map_values(|e: (String, FormattedMessage)| entry_view(e)) == self@,
            unique_keys(self@),
    {
        proof {
            use_type_invariant(self);
        }
        &self.entries
    }

    /// A copy of this table.
    pub fn duplicate(&self) -> (r: MessageMap)
        ensures
            r@ == self@,
    {
        proof {
            use_type_invariant(self);
        }
        let mut es: Vec<(String, FormattedMessage)> = Vec::new();
        let mut i: usize = 0;
        while i < self.entries.len()
            invariant
                i <= self.entries@.len(),
                unique_keys(self@),
                es@.map_values(|e: (String, FormattedMessage)| entry_view(e)) =~= self@.take(i as int),
            decreases self.entries.len() - i,
        {
            let k = self.entries[i].0.clone();
            let m = self.entries[i].1.duplicate();
            let ghost prev = es@;
            es.push((k, m));
            proof {
                assert(self@[i as int] == entry_view(self.entries@[i as int]));
                assert(es@ =~= prev.push((k, m)));
                assert(prev.push((k, m)).map_values(|e: (String, FormattedMessage)| entry_view(e)) =~= prev.map_values(|e: (String, FormattedMessage)| entry_view(e)).push(entry_view((k, m))));
                assert(es@.map_values(|e: (String, FormattedMessage)| entry_view(e)) =~= self@.take(i + 1));
            }
            i += 1;
        }
        proof {
            assert(self@.take(i as int) =~= self@);
        }
        MessageMap { entries: es }
    }

    /// The position of the entry with key `key`, if any.
    pub fn position(&self, key: &str) -> (r: Option<usize>)
        ensures
            match r {
                Some(i) => i < self@.len() && self@[i as int].0 == key@,
                None => !has_key(self@, key@),
            },
    {
        let k = key.to_owned();
        let mut i: usize = 0;
        while i < self.entries.len()
            invariant
                i <= self.entries@.len(),
                k@ == key@,
                forall|j: int| 0 <= j < i ==> #[trigger] self@[j].0 != key@,
            decreases self.entries.len() - i,
        {
            if self.entries[i].0 == k {
                return Some(i);
            }
            i += 1;
        }
        None
    }

    /// The message stored under `key` (`HashMap::get`).
    pub fn get(&self, key: &str) -> (r: Option<&FormattedMessage>)
        ensures
            match r {
                Some(m) => lookup(self@, key@) == Some(m@),
                None => lookup(self@, key@) is None,
            },
            r is Some <==> has_key(self@, key@),
    {
        proof {
            use_type_invariant(self);
        }
        match self.position(key) {
            Some(i) => {
                proof {
                    lemma_lookup_index(self@, i as int);
                }
                Some(&self.entries[i].1)
            },
            None => {
                proof {
                    lemma_lookup_absent(self@, key@);
                }
                None
            },
        }
    }

    /// Stores `msg` under `key` (`HashMap::insert`): an existing entry with that
    /// key is replaced in place, otherwise the entry goes last.
    pub fn insert(&mut self, key: String, msg: FormattedMessage)
        ensures
            final(self)@ == with_entry(old(self)@, key@, msg@),
    {
        proof {
            use_type_invariant(&*self);
            lemma_with_entry(self@, key@, msg@);
        }
        let ghost kv = key@;
        let ghost mv = msg@;
        match self.position(key.as_str()) {
            Some(i) => {
                let ghost old_s = self@;
                proof {
                    assert(has_key(old_s, kv));
                    let c = choose|c: int| 0 <= c < old_s.len() && #[trigger] old_s[c].0 == kv;
                    assert(c == i);
                }
                let mut es = Vec::new();
                std::mem::swap(&mut es, &mut self.entries);
                es.set(i, (key, msg));
                assert(es@.map_values(|e: (String, FormattedMessage)| entry_view(e)) =~= old_s.update(i as int, (kv, mv)));
                self.entries = es;
            },
            None => {
                let ghost old_s = self@;
                let mut es = Vec::new();
                std::mem::swap(&mut es, &mut self.entries);
                es.push((key, msg));
                assert(es@.map_values(|e: (String, FormattedMessage)| entry_view(e)) =~= old_s.push((kv, mv)));
                self.entries = es;
            },
        }
    }

    /// The table holding the given pairs, each stored in turn.
    pub fn from_pairs(pairs: Vec<(String, FormattedMessage)>) -> (r: MessageMap)
        ensures
            r@ == entries_from(pairs@.map_values(|e: (String, FormattedMessage)| entry_view(e))),
    {
        let ghost pv = pairs@.map_values(|e: (String, FormattedMessage)| entry_view(e));
        let mut m = MessageMap::new();
        let mut i: usize = 0;
        let n = pairs.len();
        for (k, v) in it: pairs
            invariant
                n == pv.len(),
                it.seq() == pairs@,
                pv == pairs@.map_values(|e: (String, FormattedMessage)| entry_view(e)),
                m@ == entries_from(pv.take(it.index() as int)),
        {
            proof {
                assert(pv.take(it.index() + 1).drop_last() =~= pv.take(it.index() as int));
            }
            m.insert(k, v);
        }
        proof {
            assert(pv.take(n as int) =~= pv);
        }
        m
    }

    /// Replaces the text of the entry at position `i`, keeping its key and note.
    pub fn set_text(&mut self, i: usize, text: String)
        requires
            i < old(self)@.len(),
        ensures
            final(self)@ == old(self)@.update(
                i as int,
                (old(self)@[i as int].0, (text@, old(self)@[i as int].1.1)),
            ),
    {
        proof {
            use_type_invariant(&*self);
        }
        let ghost old_s = self@;
        let mut es = Vec::new();
        std::mem::swap(&mut es, &mut self.entries);
        let key = es[i].0.clone();
        let note = copy_note(&es[i].1.note);
        es.set(i, (key, FormattedMessage { text, note }));
        proof {
            let new_s = es@.map_values(|e: (String, FormattedMessage)| entry_view(e));
            assert(new_s =~= old_s.update(i as int, (old_s[i as int].0, (text@, old_s[i as int].1.1))));
            assert forall|a: int, b: int| 0 <= a < b < new_s.len() implies #[trigger] new_s[a].0
                != #[trigger] new_s[b].0 by {
                assert(new_s[a].0 == old_s[a].0 && new_s[b].0 == old_s[b].0);
            }
        }
        self.entries = es;
    }
}

/// The three well-known i18n message formats we support.
#[derive(Debug)]
pub enum IntlFile {
    /// Flat key→string map (i18next, Chrome extensions, etc.)
    Simple(MessageMap),
    /// FormatJS / React-Intl compiled output.
    FormatJS(MessageMap),
    /// Rails / Ruby i18n YAML with a top-level locale wrapper.
    Rails(String, MessageMap),
}

impl IntlFile {
    /// The message table, whatever the format.
    pub open spec fn table(self) -> MessageMap {
        match self {
            IntlFile::Simple(m) => m,
            IntlFile::FormatJS(m) => m,
            IntlFile::Rails(_, m) => m,
        }
    }

    /// The same format (and locale) holding another table.
    pub open spec fn with_table(self, m: MessageMap) -> IntlFile {
        match self {
            IntlFile::Simple(_) => IntlFile::Simple(m),
            IntlFile::FormatJS(_) => IntlFile::FormatJS(m),
            IntlFile::Rails(l, _) => IntlFile::Rails(l, m),
        }
    }

    /// The message table.
    pub fn messages(&self) -> (r: &MessageMap)
        ensures
            *r == self.table(),
    {
        match self {
            IntlFile::Simple(m) => m,
            IntlFile::FormatJS(m) => m,
            IntlFile::Rails(_, m) => m,
        }
    }

    /// The message table, for changing it in place.
    pub fn messages_mut(&mut self) -> (r: &mut MessageMap)
        ensures
            *r == old(self).table(),
            *final(self) == old(self).with_table(*final(r)),
    {
        match self {
            IntlFile::Simple(m) => m,
            IntlFile::FormatJS(m) => m,
            IntlFile::Rails(_, m) => m,
        }
    }

    /// A copy of this file.
    pub fn duplicate(&self) -> (r: IntlFile)
        ensures
            r == self.with_table(r.table()),
            r.table()@ == self.table()@,
    {
        match self {
            IntlFile::Simple(m) => IntlFile::Simple(m.duplicate()),
            IntlFile::FormatJS(m) => IntlFile::FormatJS(m.duplicate()),
            IntlFile::Rails(l, m) => IntlFile::Rails(l.clone(), m.duplicate()),
        }
    }

    /// The number of messages.
    pub fn len(&self) -> (r: usize)
        ensures
            r == self.table()@.len(),
    {
        self.messages().len()
    }
}

/// A file as plain values: its format, its locale for Rails, and its entries.
pub enum FileView {
    Simple(Seq<(Seq<char>, MessageView)>),
    FormatJS(Seq<(Seq<char>, MessageView)>),
    Rails(Seq<char>, Seq<(Seq<char>, MessageView)>),
}

pub open spec fn file_view(f: IntlFile) -> FileView {
    match f {
        IntlFile::Simple(m) => FileView::Simple(m@),
        IntlFile::FormatJS(m) => FileView::FormatJS(m@),
        IntlFile::Rails(l, m) => FileView::Rails(l@, m@),
    }
}

} // verus!
