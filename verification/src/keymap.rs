//! Note scheduler: an immutable mapping from single characters to note names,
//! and a tracker of currently held keys with idempotent press / release
//! semantics.

use vstd::map::*;
use vstd::multiset::Multiset;
use vstd::seq_lib::to_multiset_build;
use vstd::seq_lib::to_multiset_remove;
use vstd::prelude::*;

verus! {

/// Why a key map could not be built.
#[derive(Debug, Clone)]
pub enum ConfigError {
    /// The text was not a JSON object whose values are all strings; carries
    /// the parser's message.
    Parse(String),
    /// A key of the object is not exactly one character; carries that key.
    InvalidKey(String),
}

/// The mathematical values of a list of key/note text pairs.
pub open spec fn pair_views(ps: Seq<(String, String)>) -> Seq<(Seq<char>, Seq<char>)> {
    ps.map_values(|p: (String, String)| (p.0@, p.1@))
}

/// The map denoted by a list of key/note pairs whose keys are single
/// characters: each pair binds its key's one character to the note, a later
/// pair superseding an earlier one with the same key.
pub open spec fn keymap_of(ps: Seq<(Seq<char>, Seq<char>)>) -> Map<char, Seq<char>>
    decreases ps.len(),
{
    if ps.len() == 0 {
        Map::empty()
    } else {
        keymap_of(ps.drop_last()).insert(ps.last().0[0], ps.last().1)
    }
}

/// The mathematical values of the stored entries.
pub open spec fn entry_views(s: Seq<(char, String)>) -> Seq<(char, Seq<char>)> {
    s.map_values(|p: (char, String)| (p.0, p.1@))
}

/// The entry list a pair list denotes, each key taken by its one character.
pub open spec fn single_entries(ps: Seq<(Seq<char>, Seq<char>)>) -> Seq<(char, Seq<char>)> {
    ps.map_values(|p: (Seq<char>, Seq<char>)| (p.0[0], p.1))
}

/// The map denoted by a list of character/note entries, a later entry
/// superseding an earlier one with the same character.
pub open spec fn entries_map(s: Seq<(char, Seq<char>)>) -> Map<char, Seq<char>>
    decreases s.len(),
{
    if s.len() == 0 {
        Map::empty()
    } else {
        entries_map(s.drop_last()).insert(s.last().0, s.last().1)
    }
}

/// The note of the latest entry for a character, if there is one.
pub open spec fn entries_lookup(s: Seq<(char, Seq<char>)>, c: char) -> Option<Seq<char>>
    decreases s.len(),
{
    if s.len() == 0 {
        None
    } else if s.last().0 == c {
        Some(s.last().1)
    } else {
        entries_lookup(s.drop_last(), c)
    }
}

/// The entry list and the map it denotes agree: a character is in the map
/// exactly when some entry binds it, and its note is the latest such binding.
pub proof fn lemma_entries_lookup(s: Seq<(char, Seq<char>)>, c: char)
    ensures
        entries_map(s).contains_key(c) <==> entries_lookup(s, c) is Some,
        entries_lookup(s, c) is Some ==> entries_map(s)[c] == entries_lookup(s, c)->Some_0,
    decreases s.len(),
{
    if s.len() > 0 {
        lemma_entries_lookup(s.drop_last(), c);
    }
}

/// Every key of the map is a single character.
pub open spec fn all_keys_single(m: Map<Seq<char>, Seq<char>>) -> bool {
    forall|k: Seq<char>| m.contains_key(k) ==> k.len() == 1
}

/// The same mapping, keyed by the one character of each key.
pub open spec fn char_keyed(m: Map<Seq<char>, Seq<char>>) -> Map<char, Seq<char>> {
    Map::new(|c: char| m.contains_key(seq![c]), |c: char| m[seq![c]])
}

/// What the JSON parser makes of a text when asked for an object of strings:
/// the key→value map the text denotes, or nothing when the text is not such
/// an object. A function of the text alone.
pub uninterp spec fn parsed_key_map(text: Seq<char>) -> Option<Map<Seq<char>, Seq<char>>>;

/// Relies on serde_json::from_str::<HashMap<String, String>>: it parses the
/// text as a JSON object whose values are all strings and yields the object's
/// key→value pairs, each key once (a later duplicate key in the text
/// supersedes an earlier one), and it fails exactly when the text does not
/// denote such an object. The order of the returned pairs is not part of the
/// contract.
#[verifier::external_body]
fn parse_json_pairs(text: &str) -> (r: Result<Vec<(String, String)>, String>)
    ensures
        r is Ok <==> parsed_key_map(text@) is Some,
        r matches Ok(ps) ==> {
            let m = parsed_key_map(text@)->Some_0;
            &&& forall|i: int, j: int| 0 <= i < j < ps@.len() ==> ps@[i].0@ != ps@[j].0@
            &&& forall|i: int|
                0 <= i < ps@.len() ==> m.contains_key(#[trigger] ps@[i].0@) && m[ps@[i].0@]
                    == ps@[i].1@
            &&& forall|k: Seq<char>|
                m.contains_key(k) ==> exists|i: int|
                    0 <= i < ps@.len() && #[trigger] ps@[i].0@ == k
        },
{
    match serde_json::from_str::<std::collections::HashMap<String, String>>(text) {
        Ok(m) => Ok(m.into_iter().collect()),
        Err(e) => Err(e.to_string()),
    }
}

/// A distinct-keyed pair list whose keys are single characters denotes,
/// keyed by character, exactly the map its pairs came from.
proof fn lemma_keymap_of_corresponds(ps: Seq<(Seq<char>, Seq<char>)>, m: Map<Seq<char>, Seq<char>>)
    requires
        forall|i: int, j: int| 0 <= i < j < ps.len() ==> ps[i].0 != ps[j].0,
        forall|i: int| 0 <= i < ps.len() ==> (#[trigger] ps[i].0).len() == 1,
        forall|i: int|
            0 <= i < ps.len() ==> m.contains_key(#[trigger] ps[i].0) && m[ps[i].0] == ps[i].1,
        forall|k: Seq<char>|
            m.contains_key(k) ==> exists|i: int| 0 <= i < ps.len() && #[trigger] ps[i].0 == k,
    ensures
        keymap_of(ps) == char_keyed(m),
    decreases ps.len(),
{
    if ps.len() == 0 {
        assert forall|k: Seq<char>| !m.contains_key(k) by {
            if m.contains_key(k) {
                let i = choose|i: int| 0 <= i < ps.len() && ps[i].0 == k;
            }
        }
        assert(keymap_of(ps) =~~= char_keyed(m));
    } else {
        let last = ps.last();
        let rest = ps.drop_last();
        let m2 = m.remove(last.0);
        assert forall|k: Seq<char>| m2.contains_key(k) implies exists|i: int|
            0 <= i < rest.len() && #[trigger] rest[i].0 == k by {
            let i = choose|i: int| 0 <= i < ps.len() && #[trigger] ps[i].0 == k;
            assert(i < ps.len() - 1) by {
                assert(k != last.0);
            }
            assert(rest[i].0 == k);
        }
        lemma_keymap_of_corresponds(rest, m2);
        assert(ps[ps.len() - 1] == last);
        assert(m.contains_key(last.0) && m[last.0] == last.1);
        assert_maps_equal!(keymap_of(ps), char_keyed(m), c => {
            if c == last.0[0] {
                assert(seq![c] =~= last.0);
                assert(m.contains_key(seq![c]));
                assert(keymap_of(ps).contains_key(c));
                assert(keymap_of(ps)[c] == last.1);
                assert(char_keyed(m).contains_key(c));
                assert(char_keyed(m)[c] == m[seq![c]]);
            } else {
                assert(seq![c] != last.0) by {
                    if seq![c] == last.0 {
                        assert(last.0[0] == c);
                    }
                }
                assert(keymap_of(ps).contains_key(c) == keymap_of(rest).contains_key(c));
                assert(keymap_of(rest) == char_keyed(m2));
                assert(char_keyed(m2).contains_key(c) == m2.contains_key(seq![c]));
                assert(m2.contains_key(seq![c]) == m.contains_key(seq![c]));
                assert(char_keyed(m).contains_key(c) == m.contains_key(seq![c]));
                if keymap_of(ps).contains_key(c) {
                    assert(keymap_of(ps)[c] == keymap_of(rest)[c]);
                    assert(char_keyed(m2)[c] == m2[seq![c]]);
                    assert(char_keyed(m)[c] == m[seq![c]]);
                }
            }
        });
    }
}

/// Immutable mapping from a single keyboard character to a note name. Loaded
/// once and replaced wholesale on reload, never partially mutated.
#[derive(Debug, Clone)]
pub struct KeyMap {
    entries: Vec<(char, String)>,
}

impl View for KeyMap {
    type V = Map<char, Seq<char>>;

    closed spec fn view(&self) -> Map<char, Seq<char>> {
        entries_map(entry_views(self.entries@))
    }
}

impl KeyMap {
    /// Build a key map from key/note text pairs, as read out of a key-map
    /// object. Every key must be exactly one character; otherwise the whole
    /// input is rejected, naming an offending key, and no partial map exists.
    /// A later pair supersedes an earlier one with the same key.
    pub fn from_pairs(pairs: &Vec<(String, String)>) -> (r: Result<KeyMap, ConfigError>)
        ensures
            r is Ok <==> (forall|i: int|
                0 <= i < pairs@.len() ==> #[trigger] pairs@[i].0@.len() == 1),
            r is Ok ==> r->Ok_0@ == keymap_of(pair_views(pairs@)),
            r is Err ==> r->Err_0 is InvalidKey,
            r matches Err(ConfigError::InvalidKey(k)) ==> exists|i: int|
                0 <= i < pairs@.len() && #[trigger] pairs@[i].0@ == k@ && k@.len() != 1 && (
                forall|j: int| 0 <= j < i ==> #[trigger] pairs@[j].0@.len() == 1),
    {
        let ghost ps = pair_views(pairs@);
        let mut entries: Vec<(char, String)> = Vec::new();
        let mut idx: usize = 0;
        while idx < pairs.len()
            invariant
                0 <= idx <= pairs@.len(),
                ps == pair_views(pairs@),
                entry_views(entries@) =~= single_entries(ps.subrange(0, idx as int)),
                forall|i: int| 0 <= i < idx ==> #[trigger] pairs@[i].0@.len() == 1,
            decreases pairs@.len() - idx,
        {
            let key = &pairs[idx].0;
            if key.as_str().unicode_len() != 1 {
                return Err(ConfigError::InvalidKey(key.clone()));
            }
            let c = key.as_str().get_char(0);
            let note = pairs[idx].1.clone();
            let ghost prev = entries@;
            entries.push((c, note));
            proof {
                let prefix = ps.subrange(0, idx as int);
                let next = ps.subrange(0, idx as int + 1);
                assert(entry_views(prev).len() == prev.len());
                assert(single_entries(prefix).len() == prefix.len());
                assert(prev.len() == idx as int);
                assert(entry_views(entries@).len() == single_entries(next).len());
                assert forall|k: int| 0 <= k < entry_views(entries@).len() implies
                    entry_views(entries@)[k] == single_entries(next)[k] by {
                    assert(ps[k] == (pairs@[k].0@, pairs@[k].1@));
                    if k < idx {
                        assert(entry_views(prev)[k] == single_entries(prefix)[k]);
                    } else {
                        assert(entry_views(entries@)[k] == (c, note@));
                    }
                }
                assert(entry_views(entries@) =~= single_entries(next));
            }
            idx += 1;
        }
        proof {
            assert(ps.subrange(0, ps.len() as int) =~= ps);
            lemma_entries_of_singles(ps);
        }
        Ok(KeyMap { entries })
    }

    /// Build a key map from the text of a key-map file: a JSON object mapping
    /// a single-character string to a note-name string. The whole text is
    /// accepted or rejected atomically; a rejection names the parse failure
    /// or an offending key, and no partial map is ever produced.
    pub fn from_json(text: &str) -> (r: Result<KeyMap, ConfigError>)
        ensures
            r is Ok <==> (parsed_key_map(text@) is Some && all_keys_single(
                parsed_key_map(text@)->Some_0,
            )),
            r is Ok ==> r->Ok_0@ == char_keyed(parsed_key_map(text@)->Some_0),
            r matches Err(ConfigError::Parse(_)) <==> parsed_key_map(text@) is None,
            r matches Err(ConfigError::InvalidKey(k)) ==> parsed_key_map(text@) is Some
                && parsed_key_map(text@)->Some_0.contains_key(k@) && k@.len() != 1,
    {
        let pairs = match parse_json_pairs(text) {
            Ok(ps) => ps,
            Err(e) => {
                return Err(ConfigError::Parse(e));
            },
        };
        let ghost m = parsed_key_map(text@)->Some_0;
        match KeyMap::from_pairs(&pairs) {
            Ok(km) => {
                proof {
                    assert forall|k: Seq<char>| m.contains_key(k) implies k.len() == 1 by {
                        let i = choose|i: int|
                            0 <= i < pairs@.len() && #[trigger] pairs@[i].0@ == k;
                    }
                    let ps = pair_views(pairs@);
                    assert forall|i: int, j: int| 0 <= i < j < ps.len() implies ps[i].0
                        != ps[j].0 by {
                        assert(pairs@[i].0@ != pairs@[j].0@);
                    }
                    assert forall|k: Seq<char>| m.contains_key(k) implies exists|i: int|
                        0 <= i < ps.len() && #[trigger] ps[i].0 == k by {
                        let i = choose|i: int|
                            0 <= i < pairs@.len() && #[trigger] pairs@[i].0@ == k;
                        assert(ps[i].0 == k);
                    }
                    lemma_keymap_of_corresponds(ps, m);
                }
                Ok(km)
            },
            Err(e) => {
                proof {
                    let k = e->InvalidKey_0;
                    let i = choose|i: int|
                        0 <= i < pairs@.len() && #[trigger] pairs@[i].0@ == k@ && k@.len() != 1;
                    assert(m.contains_key(pairs@[i].0@));
                }
                Err(e)
            },
        }
    }

    /// Look up the note a character is mapped to.
    pub fn note_for_char(&self, ch: char) -> (r: Option<&str>)
        ensures
            r is Some <==> self@.contains_key(ch),
            r is Some ==> r->Some_0@ == self@[ch],
    {
        let ghost all = entry_views(self.entries@);
        let mut i: usize = self.entries.len();
        proof {
            assert(all.subrange(0, i as int) =~= all);
        }
        while i > 0
            invariant
                i <= self.entries@.len(),
                all == entry_views(self.entries@),
                entries_lookup(all, ch) == entries_lookup(all.subrange(0, i as int), ch),
            decreases i,
        {
            i -= 1;
            let ghost up_to = all.subrange(0, i as int + 1);
            proof {
                assert(up_to.drop_last() =~= all.subrange(0, i as int));
            }
            if self.entries[i].0 == ch {
                proof {
                    lemma_entries_lookup(all, ch);
                }
                return Some(self.entries[i].1.as_str());
            }
        }
        proof {
            assert(all.subrange(0, 0) =~= Seq::<(char, Seq<char>)>::empty());
            lemma_entries_lookup(all, ch);
        }
        None
    }
}

/// When every key of a pair list is a single character, folding the entries
/// list built from the pairs' characters gives the same map as folding the
/// pairs themselves.
proof fn lemma_entries_of_singles(ps: Seq<(Seq<char>, Seq<char>)>)
    ensures
        entries_map(single_entries(ps)) == keymap_of(ps),
    decreases ps.len(),
{
    let cs = single_entries(ps);
    if ps.len() > 0 {
        lemma_entries_of_singles(ps.drop_last());
        assert(cs.drop_last() =~~= single_entries(ps.drop_last()));
    }
}

/// Whether a character occurs in the list.
fn contains_char(v: &Vec<char>, ch: char) -> (r: bool)
    ensures
        r == v@.contains(ch),
{
    let mut i: usize = 0;
    while i < v.len()
        invariant
            i <= v@.len(),
            forall|j: int| 0 <= j < i ==> v@[j] != ch,
        decreases v@.len() - i,
    {
        if v[i] == ch {
            return true;
        }
        i += 1;
    }
    false
}

/// Appending one entry to the stored list appends its value to the view.
proof fn lemma_entry_views_push(s: Seq<(char, String)>, p: (char, String))
    ensures
        entry_views(s.push(p)) =~= entry_views(s).push((p.0, p.1@)),
{
    assert(entry_views(s.push(p)).len() == entry_views(s).push((p.0, p.1@)).len());
}

/// Appending a character to a list inserts it into the list's set.
proof fn lemma_push_to_set(s: Seq<char>, c: char)
    ensures
        s.push(c).to_set() =~= s.to_set().insert(c),
{
    assert forall|x: char|
        s.push(c).to_set().contains(x) == s.to_set().insert(c).contains(x) by {
        if x == c {
            assert(s.push(c)[s.len() as int] == c);
            assert(s.push(c).contains(c));
        } else {
            if s.contains(x) {
                let i = choose|i: int| 0 <= i < s.len() && s[i] == x;
                assert(s.push(c)[i] == x);
                assert(s.push(c).contains(x));
            }
            if s.push(c).contains(x) {
                let i = choose|i: int| 0 <= i < s.push(c).len() && s.push(c)[i] == x;
                assert(s[i] == x);
                assert(s.contains(x));
            }
        }
    }
}

/// The three latest-value slots of a pressed-keys state: which keys are down,
/// and which note each down key activated, in activation order.
pub ghost struct PressedView {
    pub down: Set<char>,
    pub notes: Seq<(char, Seq<char>)>,
}

/// A pressed-keys state is well formed when every key with a recorded note is
/// also tracked as down.
pub open spec fn pressed_wf(v: PressedView) -> bool {
    forall|i: int| 0 <= i < v.notes.len() ==> v.down.contains((#[trigger] v.notes[i]).0)
}

/// State after a key goes down, with the note the press activated: a repeat
/// press of a held key changes nothing and activates nothing; an unmapped key
/// is marked down but records no note; a mapped key is marked down, records
/// the map's note, and returns it as the signal to start playback.
pub open spec fn spec_key_down(v: PressedView, km: Map<char, Seq<char>>, ch: char) -> (
    PressedView,
    Option<Seq<char>>,
) {
    if v.down.contains(ch) {
        (v, None)
    } else if km.contains_key(ch) {
        (PressedView { down: v.down.insert(ch), notes: v.notes.push((ch, km[ch])) }, Some(km[ch]))
    } else {
        (PressedView { down: v.down.insert(ch), notes: v.notes }, None)
    }
}

/// The note entries for every key but the given one, in their old order.
pub open spec fn drop_key(notes: Seq<(char, Seq<char>)>, ch: char) -> Seq<(char, Seq<char>)>
    decreases notes.len(),
{
    if notes.len() == 0 {
        notes
    } else {
        let rest = drop_key(notes.drop_last(), ch);
        if notes.last().0 == ch {
            rest
        } else {
            rest.push(notes.last())
        }
    }
}

/// State after a key comes up, with the note to stop: the key leaves the down
/// set unconditionally; its note entry, if it had one, leaves the record and
/// its note is returned, and a key that never activated a note returns
/// nothing.
pub open spec fn spec_key_up(v: PressedView, ch: char) -> (PressedView, Option<Seq<char>>) {
    (
        PressedView { down: v.down.remove(ch), notes: drop_key(v.notes, ch) },
        entries_lookup(v.notes, ch),
    )
}

/// The mathematical value of a returned note.
pub open spec fn opt_view(o: Option<String>) -> Option<Seq<char>> {
    match o {
        Some(s) => Some(s@),
        None => None,
    }
}

/// A key that no entry binds has no note and loses no entry.
proof fn lemma_no_entry(notes: Seq<(char, Seq<char>)>, ch: char)
    requires
        forall|i: int| 0 <= i < notes.len() ==> (#[trigger] notes[i]).0 != ch,
    ensures
        entries_lookup(notes, ch) is None,
        drop_key(notes, ch) == notes,
    decreases notes.len(),
{
    if notes.len() > 0 {
        lemma_no_entry(notes.drop_last(), ch);
        assert(notes.drop_last().push(notes.last()) =~= notes);
    }
}

/// Every entry that survives the removal of a key stood in the record before,
/// and none of the survivors binds the removed key.
proof fn lemma_drop_key_membership(notes: Seq<(char, Seq<char>)>, ch: char)
    ensures
        forall|i: int|
            0 <= i < drop_key(notes, ch).len() ==> ((#[trigger] drop_key(notes, ch)[i]).0 != ch
                && exists|j: int| 0 <= j < notes.len() && notes[j] == drop_key(notes, ch)[i]),
    decreases notes.len(),
{
    if notes.len() > 0 {
        let dl = notes.drop_last();
        lemma_drop_key_membership(dl, ch);
        assert forall|i: int| 0 <= i < drop_key(notes, ch).len() implies ((#[trigger] drop_key(
            notes,
            ch,
        )[i]).0 != ch && exists|j: int|
            0 <= j < notes.len() && notes[j] == drop_key(notes, ch)[i]) by {
            if notes.last().0 == ch || i < drop_key(dl, ch).len() {
                assert(drop_key(notes, ch)[i] == drop_key(dl, ch)[i]);
                let j = choose|j: int| 0 <= j < dl.len() && dl[j] == drop_key(dl, ch)[i];
                assert(notes[j] == drop_key(notes, ch)[i]);
            } else {
                assert(drop_key(notes, ch)[i] == notes.last());
                assert(notes[notes.len() - 1] == drop_key(notes, ch)[i]);
            }
        }
    }
}

/// Tracker of the currently held keys and of the note each press activated.
/// Each note entry's lifetime spans exactly one press-to-release interval.
#[derive(Debug, Clone)]
pub struct PressedKeys {
    keys_down: Vec<char>,
    key_to_note: Vec<(char, String)>,
}

impl View for PressedKeys {
    type V = PressedView;

    closed spec fn view(&self) -> PressedView {
        PressedView { down: self.keys_down@.to_set(), notes: entry_views(self.key_to_note@) }
    }
}

impl PressedKeys {
    /// A tracker with no key down and no note active.
    pub fn new() -> (r: PressedKeys)
        ensures
            r@ == (PressedView { down: Set::<char>::empty(), notes: Seq::<(
                char,
                Seq<char>,
            )>::empty() }),
            pressed_wf(r@),
    {
        let r = PressedKeys { keys_down: Vec::new(), key_to_note: Vec::new() };
        proof {
            assert(r.keys_down@.to_set() =~= Set::<char>::empty());
            assert(r@.notes =~= Seq::<(char, Seq<char>)>::empty());
        }
        r
    }

    /// Mark a key down. Returns the note this press activated: nothing for a
    /// repeat of a held key (the repeat changes nothing at all) and nothing
    /// for an unmapped key, which is still marked down but records no note.
    pub fn key_down(&mut self, ch: char, keymap: &KeyMap) -> (r: Option<String>)
        ensures
            (final(self)@, opt_view(r)) == spec_key_down(old(self)@, keymap@, ch),
    {
        if contains_char(&self.keys_down, ch) {
            return None;
        }
        let ghost prev_down = self.keys_down@;
        self.keys_down.push(ch);
        proof {
            lemma_push_to_set(prev_down, ch);
        }
        match keymap.note_for_char(ch) {
            None => None,
            Some(note) => {
                let owned = note.to_owned();
                let ghost prev_notes = self.key_to_note@;
                self.key_to_note.push((ch, owned.clone()));
                proof {
                    lemma_entry_views_push(prev_notes, (ch, owned));
                    assert(entry_views(self.key_to_note@) =~= entry_views(prev_notes).push(
                        (ch, keymap@[ch]),
                    ));
                }
                Some(owned)
            },
        }
    }

    /// Mark a key up. The key leaves the down set; the note it activated, if
    /// any, is removed from the record and returned as the signal to stop
    /// playback. A key that never activated a note returns nothing.
    pub fn key_up(&mut self, ch: char) -> (r: Option<String>)
        ensures
            (final(self)@, opt_view(r)) == spec_key_up(old(self)@, ch),
    {
        let ghost dorig = self.keys_down@;
        let ghost norig = entry_views(self.key_to_note@);

        let mut kept: Vec<char> = Vec::new();
        let mut i: usize = 0;
        while i < self.keys_down.len()
            invariant
                i <= dorig.len(),
                self.keys_down@ == dorig,
                forall|j: int| 0 <= j < kept@.len() ==> #[trigger] kept@[j] != ch,
                forall|j: int| 0 <= j < kept@.len() ==> dorig.contains(#[trigger] kept@[j]),
                forall|j: int|
                    0 <= j < i && dorig[j] != ch ==> kept@.contains(#[trigger] dorig[j]),
            decreases dorig.len() - i,
        {
            let c = self.keys_down[i];
            if c != ch {
                let ghost kprev = kept@;
                kept.push(c);
                proof {
                    assert forall|j: int| 0 <= j < i + 1 && dorig[j] != ch implies kept@.contains(
                        #[trigger] dorig[j],
                    ) by {
                        if j < i {
                            let j0 = choose|j0: int| 0 <= j0 < kprev.len() && kprev[j0] == dorig[j];
                            assert(kept@[j0] == dorig[j]);
                        } else {
                            assert(kept@[kprev.len() as int] == dorig[j]);
                        }
                    }
                }
            }
            i += 1;
        }

        let mut found: Option<String> = None;
        let mut nkept: Vec<(char, String)> = Vec::new();
        let mut k: usize = 0;
        while k < self.key_to_note.len()
            invariant
                k <= self.key_to_note@.len(),
                entry_views(self.key_to_note@) == norig,
                entry_views(nkept@) == drop_key(norig.subrange(0, k as int), ch),
                opt_view(found) == entries_lookup(norig.subrange(0, k as int), ch),
            decreases self.key_to_note@.len() - k,
        {
            let ghost up_to = norig.subrange(0, k as int + 1);
            proof {
                assert(up_to.drop_last() =~= norig.subrange(0, k as int));
            }
            let c = self.key_to_note[k].0;
            if c == ch {
                found = Some(self.key_to_note[k].1.clone());
            } else {
                let ghost nprev = nkept@;
                nkept.push((c, self.key_to_note[k].1.clone()));
                proof {
                    lemma_entry_views_push(nprev, (c, self.key_to_note@[k as int].1));
                    assert(entry_views(nkept@) =~= drop_key(up_to, ch));
                }
            }
            k += 1;
        }

        self.keys_down = kept;
        self.key_to_note = nkept;
        proof {
            assert(norig.subrange(0, norig.len() as int) =~= norig);
            assert forall|x: char|
                self.keys_down@.to_set().contains(x) == dorig.to_set().remove(ch).contains(x) by {
                if self.keys_down@.contains(x) {
                    let j = choose|j: int|
                        0 <= j < self.keys_down@.len() && self.keys_down@[j] == x;
                }
                if dorig.contains(x) && x != ch {
                    let j = choose|j: int| 0 <= j < dorig.len() && dorig[j] == x;
                }
            }
            assert(self.keys_down@.to_set() =~= dorig.to_set().remove(ch));
        }
        found
    }

    /// A sorted snapshot of the currently active note names, with one entry
    /// per activation. The ordering is a display convenience only.
    pub fn active_notes(&self) -> (r: Vec<String>)
        ensures
            note_views(r@).to_multiset() == note_values(self@.notes).to_multiset(),
            sorted_lex(note_views(r@)),
    {
        let ghost notes = entry_views(self.key_to_note@);
        let mut vals: Vec<String> = Vec::new();
        let mut i: usize = 0;
        while i < self.key_to_note.len()
            invariant
                i <= self.key_to_note@.len(),
                notes == entry_views(self.key_to_note@),
                note_views(vals@) =~= note_values(notes).subrange(0, i as int),
            decreases self.key_to_note@.len() - i,
        {
            let ghost prev = vals@;
            vals.push(self.key_to_note[i].1.clone());
            proof {
                assert(note_views(prev).len() == prev.len());
                assert(note_values(notes).subrange(0, i as int).len() == i as int);
                assert forall|t: int| 0 <= t < note_views(vals@).len() implies note_views(vals@)[t]
                    == note_values(notes).subrange(0, i as int + 1)[t] by {
                    if t < i as int {
                        assert(note_views(prev)[t] == note_values(notes).subrange(0, i as int)[t]);
                    } else {
                        assert(note_views(vals@)[t] == vals@[t]@);
                        assert(notes[t] == (self.key_to_note@[t].0, self.key_to_note@[t].1@));
                    }
                }
                assert(note_views(vals@) =~= note_values(notes).subrange(0, i as int + 1));
            }
            i += 1;
        }
        proof {
            assert(note_values(notes).subrange(0, notes.len() as int) =~= note_values(notes));
        }
        sort_notes(vals)
    }

    /// Whether the key is currently held.
    pub fn _is_down(&self, ch: char) -> (r: bool)
        ensures
            r == self@.down.contains(ch),
    {
        contains_char(&self.keys_down, ch)
    }
}

/// Lexicographic order on texts, by the code points of their characters; a
/// proper prefix comes first.
pub open spec fn lex_le(a: Seq<char>, b: Seq<char>) -> bool
    decreases a.len(),
{
    if a.len() == 0 {
        true
    } else if b.len() == 0 {
        false
    } else if (a[0] as u32) < (b[0] as u32) {
        true
    } else if (a[0] as u32) > (b[0] as u32) {
        false
    } else {
        lex_le(a.drop_first(), b.drop_first())
    }
}

/// The texts stand in lexicographic order.
pub open spec fn sorted_lex(s: Seq<Seq<char>>) -> bool {
    forall|i: int, j: int| 0 <= i < j < s.len() ==> lex_le(#[trigger] s[i], #[trigger] s[j])
}

/// The mathematical values of a list of note names.
pub open spec fn note_views(s: Seq<String>) -> Seq<Seq<char>> {
    s.map_values(|x: String| x@)
}

/// The notes of a record's entries, in the record's order.
pub open spec fn note_values(notes: Seq<(char, Seq<char>)>) -> Seq<Seq<char>> {
    notes.map_values(|p: (char, Seq<char>)| p.1)
}

/// Lexicographic order is total: of any two texts, one comes first.
pub proof fn lemma_lex_total(a: Seq<char>, b: Seq<char>)
    ensures
        lex_le(a, b) || lex_le(b, a),
    decreases a.len(),
{
    if a.len() > 0 && b.len() > 0 && (a[0] as u32) == (b[0] as u32) {
        lemma_lex_total(a.drop_first(), b.drop_first());
    }
}

/// Lexicographic order is transitive.
pub proof fn lemma_lex_trans(a: Seq<char>, b: Seq<char>, c: Seq<char>)
    requires
        lex_le(a, b),
        lex_le(b, c),
    ensures
        lex_le(a, c),
    decreases a.len(),
{
    if a.len() > 0 && b.len() > 0 && c.len() > 0 && (a[0] as u32) == (b[0] as u32) && (b[0]
        as u32) == (c[0] as u32) {
        lemma_lex_trans(a.drop_first(), b.drop_first(), c.drop_first());
    }
}

/// Relies on the `<=` of String: strings compare lexicographically by their
/// byte values, which for their UTF-8 bytes is lexicographic order of the
/// characters' code points.
#[verifier::external_body]
fn str_le(a: &String, b: &String) -> (r: bool)
    ensures
        r == lex_le(a@, b@),
{
    a <= b
}

/// Sort note names lexicographically. The result holds exactly the given
/// names, counted with multiplicity.
fn sort_notes(notes: Vec<String>) -> (r: Vec<String>)
    ensures
        note_views(r@).to_multiset() == note_views(notes@).to_multiset(),
        sorted_lex(note_views(r@)),
{
    broadcast use vstd::seq_lib::group_to_multiset_ensures;
    broadcast use vstd::multiset::group_multiset_axioms;

    let ghost orig = note_views(notes@);
    let mut rest = notes;
    let mut out: Vec<String> = Vec::new();
    proof {
        assert(note_views(out@).to_multiset() =~= Multiset::<Seq<char>>::empty());
        assert(note_views(out@).to_multiset().add(note_views(rest@).to_multiset())
            =~= orig.to_multiset());
    }
    while rest.len() > 0
        invariant
            note_views(out@).to_multiset().add(note_views(rest@).to_multiset())
                == orig.to_multiset(),
            sorted_lex(note_views(out@)),
            forall|a: int, b: int|
                0 <= a < out@.len() && 0 <= b < rest@.len() ==> lex_le(
                    #[trigger] note_views(out@)[a],
                    #[trigger] note_views(rest@)[b],
                ),
        decreases rest@.len(),
    {
        let mut mi: usize = 0;
        let mut k: usize = 1;
        proof {
            assert(note_views(rest@)[0] == rest@[0]@);
            lemma_lex_total(rest@[0]@, rest@[0]@);
        }
        while k < rest.len()
            invariant
                0 < rest@.len(),
                mi < k <= rest@.len(),
                forall|j: int|
                    0 <= j < k ==> lex_le(
                        note_views(rest@)[mi as int],
                        #[trigger] note_views(rest@)[j],
                    ),
            decreases rest@.len() - k,
        {
            let ghost old_mi = mi as int;
            proof {
                assert(note_views(rest@)[old_mi] == rest@[old_mi]@);
                assert(note_views(rest@)[k as int] == rest@[k as int]@);
            }
            if !str_le(&rest[mi], &rest[k]) {
                proof {
                    lemma_lex_total(rest@[old_mi]@, rest@[k as int]@);
                }
                mi = k;
                proof {
                    assert forall|j: int| 0 <= j < k + 1 implies lex_le(
                        note_views(rest@)[mi as int],
                        #[trigger] note_views(rest@)[j],
                    ) by {
                        if j < k {
                            lemma_lex_trans(
                                note_views(rest@)[mi as int],
                                note_views(rest@)[old_mi],
                                note_views(rest@)[j],
                            );
                        } else {
                            lemma_lex_total(rest@[k as int]@, rest@[k as int]@);
                        }
                    }
                }
            } else {
                proof {
                    assert(lex_le(note_views(rest@)[mi as int], note_views(rest@)[k as int]));
                }
            }
            k += 1;
        }
        let ghost prev_rest = rest@;
        let ghost prev_out = out@;
        let ghost v = note_views(prev_rest)[mi as int];
        let x = rest.remove(mi);
        out.push(x);
        proof {
            assert(x@ == v);
            assert(note_views(rest@) =~= note_views(prev_rest).remove(mi as int));
            assert(note_views(out@) =~= note_views(prev_out).push(v));
            assert(note_views(prev_rest).contains(v));
            assert(note_views(prev_rest).len() == prev_rest.len());
            to_multiset_remove(note_views(prev_rest), mi as int);
            assert(note_views(prev_rest).remove(mi as int).to_multiset()
                =~= note_views(prev_rest).to_multiset().remove(v));
            assert(note_views(rest@).to_multiset() =~= note_views(prev_rest).to_multiset().remove(
                v,
            ));
            to_multiset_build(note_views(prev_out), v);
            assert(note_views(prev_out).push(v).to_multiset() =~= note_views(
                prev_out,
            ).to_multiset().insert(v));
            assert(note_views(out@).to_multiset() =~= note_views(prev_out).to_multiset().insert(v));
            note_views(prev_rest).to_multiset_ensures();
            assert(note_views(prev_rest).to_multiset().count(v) > 0);
            assert(note_views(out@).to_multiset().add(note_views(rest@).to_multiset())
                =~= note_views(prev_out).to_multiset().add(note_views(prev_rest).to_multiset()));
            assert forall|a: int, b: int|
                0 <= a < out@.len() && 0 <= b < rest@.len() implies lex_le(
                #[trigger] note_views(out@)[a],
                #[trigger] note_views(rest@)[b],
            ) by {
                let pb: int = if b < mi as int {
                    b
                } else {
                    b + 1
                };
                assert(note_views(rest@)[b] == note_views(prev_rest)[pb]);
                if a < prev_out.len() {
                    assert(note_views(out@)[a] == note_views(prev_out)[a]);
                } else {
                    assert(note_views(out@)[a] == v);
                }
            }
            assert forall|a: int, b: int| 0 <= a < b < out@.len() implies lex_le(
                #[trigger] note_views(out@)[a],
                #[trigger] note_views(out@)[b],
            ) by {
                if b == prev_out.len() as int {
                    assert(note_views(out@)[a] == note_views(prev_out)[a]);
                    assert(lex_le(note_views(prev_out)[a], note_views(prev_rest)[mi as int]));
                }
            }
        }
    }
    proof {
        assert(note_views(rest@).to_multiset() =~= Multiset::<Seq<char>>::empty());
        assert(note_views(out@).to_multiset() =~= note_views(out@).to_multiset().add(
            note_views(rest@).to_multiset(),
        ));
    }
    out
}

/// A second press of a held key is ignored: whatever the first press did,
/// pressing the key again without releasing it first returns no note and
/// leaves the whole state — hence the active notes — unchanged.
pub proof fn lemma_key_down_repeat(v: PressedView, km: Map<char, Seq<char>>, ch: char)
    ensures
        spec_key_down(spec_key_down(v, km, ch).0, km, ch) == (
            spec_key_down(v, km, ch).0,
            None::<Seq<char>>,
        ),
{
    assert(spec_key_down(v, km, ch).0.down.contains(ch));
}

/// Releasing a key that is not down — never pressed, or already released —
/// returns no note and removes no note entry, in any well-formed state.
pub proof fn lemma_key_up_unpressed(v: PressedView, ch: char)
    requires
        pressed_wf(v),
        !v.down.contains(ch),
    ensures
        spec_key_up(v, ch).1 is None,
        spec_key_up(v, ch).0.notes == v.notes,
        spec_key_up(v, ch).0.down == v.down,
{
    assert forall|i: int| 0 <= i < v.notes.len() implies (#[trigger] v.notes[i]).0 != ch by {
        assert(v.down.contains(v.notes[i].0));
    }
    lemma_no_entry(v.notes, ch);
    assert(v.down.remove(ch) =~= v.down);
}

/// Pressing a key preserves well-formedness.
pub proof fn lemma_key_down_preserves_wf(v: PressedView, km: Map<char, Seq<char>>, ch: char)
    requires
        pressed_wf(v),
    ensures
        pressed_wf(spec_key_down(v, km, ch).0),
{
    let v2 = spec_key_down(v, km, ch).0;
    assert forall|i: int| 0 <= i < v2.notes.len() implies v2.down.contains(
        (#[trigger] v2.notes[i]).0,
    ) by {
        if !v.down.contains(ch) && km.contains_key(ch) && i < v.notes.len() {
            assert(v2.notes[i] == v.notes[i]);
        }
    }
}

/// Releasing a key preserves well-formedness, and afterwards the key is no
/// longer down, so a second release returns nothing.
pub proof fn lemma_key_up_preserves_wf(v: PressedView, ch: char)
    requires
        pressed_wf(v),
    ensures
        pressed_wf(spec_key_up(v, ch).0),
        !spec_key_up(v, ch).0.down.contains(ch),
{
    let v2 = spec_key_up(v, ch).0;
    lemma_drop_key_membership(v.notes, ch);
    assert forall|i: int| 0 <= i < v2.notes.len() implies v2.down.contains(
        (#[trigger] v2.notes[i]).0,
    ) by {
        let j = choose|j: int| 0 <= j < v.notes.len() && v.notes[j] == drop_key(v.notes, ch)[i];
        assert(v.down.contains(v.notes[j].0));
    }
}

} // verus!
