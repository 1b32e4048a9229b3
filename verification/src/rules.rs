//! The rule table: which characters are disallowed, how each is named, and
//! what each is replaced with.

use vstd::prelude::*;

verus! {

/// The visible marker substituted for a disallowed character whose rule names
/// no replacement.
pub const FALLBACK_MARKER: char = '✗';

/// One configured rule: a disallowed character, its human-readable name, and
/// the character substituted for it.
pub struct RuleEntry {
    pub ch: char,
    pub name: String,
    pub replacement: char,
}

/// Why a configuration payload was rejected.
#[derive(Debug, PartialEq, Eq, Structural)]
pub enum ConfigError {
    /// The payload is not a JSON object of string keys and string-list values.
    NotParseable,
    /// An entry's key holds no character at all.
    EmptyKey,
}

/// An immutable table of rules, one per disallowed character.
pub struct RuleTable {
    entries: Vec<RuleEntry>,
}

/// The display name a configuration value carries, or `UNKNOWN` where the
/// value names none.
pub open spec fn entry_name(val: Seq<Seq<char>>) -> Seq<char> {
    if val.len() >= 1 {
        val[0]
    } else {
        "UNKNOWN"@
    }
}

/// The replacement character a configuration value carries, or the fallback
/// marker where the value's replacement string is empty or absent.
pub open spec fn entry_replacement(val: Seq<Seq<char>>) -> char {
    if val.len() >= 2 && val[1].len() > 0 {
        val[1][0]
    } else {
        FALLBACK_MARKER
    }
}

/// Whether every configuration key holds at least one character.
pub open spec fn all_keys_nonempty(pairs: Seq<(Seq<char>, Seq<Seq<char>>)>) -> bool {
    forall|i: int| 0 <= i < pairs.len() ==> (#[trigger] pairs[i]).0.len() > 0
}

/// The mapping a sequence of configuration pairs denotes: each key's first
/// character maps to the pair's name and replacement, later pairs overriding
/// earlier ones.
pub open spec fn pairs_model(pairs: Seq<(Seq<char>, Seq<Seq<char>>)>) -> Map<
    char,
    (Seq<char>, char),
>
    decreases pairs.len(),
{
    if pairs.len() == 0 {
        Map::empty()
    } else {
        pairs_model(pairs.drop_last()).insert(
            pairs.last().0[0],
            (entry_name(pairs.last().1), entry_replacement(pairs.last().1)),
        )
    }
}

/// What a configuration text parses to: `None` where the text is not a JSON
/// object mapping string keys to lists of strings, otherwise that mapping.
/// Stands for what serde_json::from_str returns, which depends on the text
/// alone; only the order in which the pairs are later walked does not.
pub uninterp spec fn parsed_config(s: Seq<char>) -> Option<Map<Seq<char>, Seq<Seq<char>>>>;

/// The pairs folded into a key-to-value mapping, later pairs overriding
/// earlier ones.
pub open spec fn pairs_map(pairs: Seq<(Seq<char>, Seq<Seq<char>>)>) -> Map<Seq<char>, Seq<Seq<char>>>
    decreases pairs.len(),
{
    if pairs.len() == 0 {
        Map::empty()
    } else {
        pairs_map(pairs.drop_last()).insert(pairs.last().0, pairs.last().1)
    }
}

/// The folded mapping holds exactly the keys the pairs hold.
proof fn lemma_pairs_map_dom(pairs: Seq<(Seq<char>, Seq<Seq<char>>)>)
    ensures
        forall|k: Seq<char>| #[trigger]
            pairs_map(pairs).contains_key(k) <==> exists|i: int|
                0 <= i < pairs.len() && (#[trigger] pairs[i]).0 == k,
    decreases pairs.len(),
{
    if pairs.len() > 0 {
        lemma_pairs_map_dom(pairs.drop_last());
        let n = pairs.len() - 1;
        assert forall|k: Seq<char>| #[trigger] pairs_map(pairs).contains_key(k) implies exists|
            i: int,
        | 0 <= i < pairs.len() && (#[trigger] pairs[i]).0 == k by {
            if k == pairs.last().0 {
                assert(pairs[n].0 == k);
            } else {
                assert(pairs_map(pairs.drop_last()).contains_key(k));
                let i = choose|i: int|
                    0 <= i < pairs.drop_last().len() && (#[trigger] pairs.drop_last()[i]).0 == k;
                assert(pairs[i].0 == k);
            }
        }
        assert forall|k: Seq<char>|
            (exists|i: int| 0 <= i < pairs.len() && (#[trigger] pairs[i]).0 == k) implies
            #[trigger] pairs_map(pairs).contains_key(k) by {
            let i = choose|i: int| 0 <= i < pairs.len() && (#[trigger] pairs[i]).0 == k;
            if i < n {
                assert(pairs.drop_last()[i].0 == k);
                assert(pairs_map(pairs.drop_last()).contains_key(k));
            }
        }
    }
}

/// With distinct keys, the folded mapping takes each key to its pair's value.
proof fn lemma_pairs_map_value(pairs: Seq<(Seq<char>, Seq<Seq<char>>)>, j: int)
    requires
        forall|i1: int, i2: int| 0 <= i1 < i2 < pairs.len() ==> pairs[i1].0 != pairs[i2].0,
        0 <= j < pairs.len(),
    ensures
        pairs_map(pairs).contains_key(pairs[j].0),
        pairs_map(pairs)[pairs[j].0] == pairs[j].1,
    decreases pairs.len(),
{
    let n = pairs.len() - 1;
    if j == n {
    } else {
        assert(pairs[j].0 != pairs[n].0);
        assert(pairs.drop_last()[j] == pairs[j]);
        assert(forall|i1: int, i2: int|
            0 <= i1 < i2 < pairs.drop_last().len() ==> (#[trigger] pairs.drop_last()[i1]).0 != (
            #[trigger] pairs.drop_last()[i2]).0);
        lemma_pairs_map_value(pairs.drop_last(), j);
    }
}

/// The table model built from the pairs holds exactly the first characters
/// of the keys.
proof fn lemma_pairs_model_dom(pairs: Seq<(Seq<char>, Seq<Seq<char>>)>)
    ensures
        forall|c: char| #[trigger]
            pairs_model(pairs).contains_key(c) <==> exists|i: int|
                0 <= i < pairs.len() && (#[trigger] pairs[i]).0[0] == c,
    decreases pairs.len(),
{
    if pairs.len() > 0 {
        lemma_pairs_model_dom(pairs.drop_last());
        let n = pairs.len() - 1;
        assert forall|c: char| #[trigger] pairs_model(pairs).contains_key(c) implies exists|i: int|
            0 <= i < pairs.len() && (#[trigger] pairs[i]).0[0] == c by {
            if c == pairs.last().0[0] {
                assert(pairs[n].0[0] == c);
            } else {
                assert(pairs_model(pairs.drop_last()).contains_key(c));
                let i = choose|i: int|
                    0 <= i < pairs.drop_last().len() && (#[trigger] pairs.drop_last()[i]).0[0] == c;
                assert(pairs[i].0[0] == c);
            }
        }
        assert forall|c: char|
            (exists|i: int| 0 <= i < pairs.len() && (#[trigger] pairs[i]).0[0] == c) implies
            #[trigger] pairs_model(pairs).contains_key(c) by {
            let i = choose|i: int| 0 <= i < pairs.len() && (#[trigger] pairs[i]).0[0] == c;
            if i < n {
                assert(pairs.drop_last()[i].0[0] == c);
                assert(pairs_model(pairs.drop_last()).contains_key(c));
            }
        }
    }
}

/// Each entry of the table model comes from the last pair whose key starts
/// with that character.
proof fn lemma_pairs_model_value(pairs: Seq<(Seq<char>, Seq<Seq<char>>)>, c: char)
    requires
        exists|i: int| 0 <= i < pairs.len() && (#[trigger] pairs[i]).0[0] == c,
    ensures
        exists|j: int|
            0 <= j < pairs.len() && (#[trigger] pairs[j]).0[0] == c && pairs_model(pairs)[c] == (
            entry_name(pairs[j].1),
            entry_replacement(pairs[j].1),
        ),
    decreases pairs.len(),
{
    let n = pairs.len() - 1;
    if pairs.last().0[0] == c {
        assert(pairs[n].0[0] == c && pairs_model(pairs)[c] == (
            entry_name(pairs[n].1),
            entry_replacement(pairs[n].1),
        ));
    } else {
        let i0 = choose|i: int| 0 <= i < pairs.len() && (#[trigger] pairs[i]).0[0] == c;
        assert(i0 < n);
        assert(pairs.drop_last()[i0].0[0] == c);
        lemma_pairs_model_value(pairs.drop_last(), c);
        let j = choose|j: int|
            0 <= j < pairs.drop_last().len() && (#[trigger] pairs.drop_last()[j]).0[0] == c
                && pairs_model(pairs.drop_last())[c] == (
            entry_name(pairs.drop_last()[j].1),
            entry_replacement(pairs.drop_last()[j].1),
        );
        assert(pairs_model(pairs)[c] == pairs_model(pairs.drop_last())[c]);
        assert(pairs[j].0[0] == c && pairs_model(pairs)[c] == (
            entry_name(pairs[j].1),
            entry_replacement(pairs[j].1),
        ));
    }
}

impl RuleTable {
    /// The entries, in insertion order.
    pub closed spec fn entries_seq(self) -> Seq<RuleEntry> {
        self.entries@
    }

    /// Well-formed: no two entries share a disallowed character.
    pub open spec fn wf(self) -> bool {
        forall|i: int, j: int|
            0 <= i < j < self.entries_seq().len() ==> self.entries_seq()[i].ch
                != self.entries_seq()[j].ch
    }

    /// Whether `c` is a disallowed character of this table.
    pub open spec fn disallowed(self, c: char) -> bool {
        exists|i: int| 0 <= i < self.entries_seq().len() && self.entries_seq()[i].ch == c
    }

    pub closed spec fn idx_of(self, c: char) -> int {
        choose|i: int| 0 <= i < self.entries_seq().len() && self.entries_seq()[i].ch == c
    }

    /// The replacement character of a disallowed character.
    pub open spec fn replacement_of(self, c: char) -> char {
        self.entries_seq()[self.idx_of(c)].replacement
    }

    /// The display name of a disallowed character.
    pub open spec fn name_of(self, c: char) -> Seq<char> {
        self.entries_seq()[self.idx_of(c)].name@
    }

    /// The table as a mapping from disallowed character to name and
    /// replacement.
    pub open spec fn model(self) -> Map<char, (Seq<char>, char)> {
        Map::new(|c: char| self.disallowed(c), |c: char| (self.name_of(c), self.replacement_of(c)))
    }

    /// In a well-formed table, an entry holding `c` is the entry every lookup
    /// of `c` resolves to.
    proof fn lemma_lookup_unique(self, c: char, i: int)
        requires
            self.wf(),
            0 <= i < self.entries_seq().len(),
            self.entries_seq()[i].ch == c,
        ensures
            self.disallowed(c),
            self.idx_of(c) == i,
    {
        assert(self.disallowed(c));
        let j = self.idx_of(c);
        assert(0 <= j < self.entries_seq().len() && self.entries_seq()[j].ch == c);
        if i < j {
            assert(self.entries_seq()[i].ch != self.entries_seq()[j].ch);
        } else if j < i {
            assert(self.entries_seq()[j].ch != self.entries_seq()[i].ch);
        }
    }

    fn find_index(&self, c: char) -> (r: Option<usize>)
        requires
            self.wf(),
        ensures
            match r {
                Some(i) => self.disallowed(c) && i == self.idx_of(c) && i
                    < self.entries_seq().len() && self.entries_seq()[i as int].ch == c,
                None => !self.disallowed(c),
            },
    {
        let n = self.entries.len();
        for i in 0..n
            invariant
                n == self.entries_seq().len(),
                self.wf(),
                forall|j: int| 0 <= j < i ==> self.entries_seq()[j].ch != c,
        {
            if self.entries[i].ch == c {
                proof {
                    self.lemma_lookup_unique(c, i as int);
                }
                return Some(i);
            }
        }
        None
    }

    /// Whether the table disallows `c`.
    pub fn is_disallowed(&self, c: char) -> (r: bool)
        requires
            self.wf(),
        ensures
            r == self.disallowed(c),
    {
        self.find_index(c).is_some()
    }

    /// The replacement for `c`, or `None` where `c` is not disallowed.
    pub fn replacement_for(&self, c: char) -> (r: Option<char>)
        requires
            self.wf(),
        ensures
            match r {
                Some(rc) => self.disallowed(c) && rc == self.replacement_of(c),
                None => !self.disallowed(c),
            },
    {
        match self.find_index(c) {
            Some(i) => Some(self.entries[i].replacement),
            None => None,
        }
    }

    /// The display name of `c`, or `None` where `c` is not disallowed.
    pub fn display_name_for(&self, c: char) -> (r: Option<String>)
        requires
            self.wf(),
        ensures
            match r {
                Some(name) => self.disallowed(c) && name@ == self.name_of(c),
                None => !self.disallowed(c),
            },
    {
        match self.find_index(c) {
            Some(i) => Some(self.entries[i].name.clone()),
            None => None,
        }
    }

    /// All disallowed characters, each exactly once, in insertion order.
    pub fn disallowed_chars(&self) -> (r: Vec<char>)
        requires
            self.wf(),
        ensures
            forall|i: int, j: int| 0 <= i < j < r@.len() ==> r@[i] != r@[j],
            forall|c: char| r@.contains(c) <==> self.disallowed(c),
    {
        let n = self.entries.len();
        let mut r: Vec<char> = Vec::new();
        for i in 0..n
            invariant
                n == self.entries_seq().len(),
                r@.len() == i,
                forall|j: int| 0 <= j < i ==> r@[j] == self.entries_seq()[j].ch,
        {
            r.push(self.entries[i].ch);
        }
        proof {
            assert forall|c: char| r@.contains(c) implies self.disallowed(c) by {
                let i = choose|i: int| 0 <= i < r@.len() && r@[i] == c;
                assert(self.entries_seq()[i].ch == c);
            }
            assert forall|c: char| self.disallowed(c) implies r@.contains(c) by {
                let i = choose|i: int|
                    0 <= i < self.entries_seq().len() && self.entries_seq()[i].ch == c;
                assert(r@[i] == c);
            }
        }
        r
    }

    /// Adds a rule, replacing any earlier rule for the same character.
    fn insert_entry(&mut self, entry: RuleEntry)
        requires
            old(self).wf(),
        ensures
            final(self).wf(),
            final(self).model() == old(self).model().insert(
                entry.ch,
                (entry.name@, entry.replacement),
            ),
    {
        let ghost old_t = *old(self);
        match self.find_index(entry.ch) {
            Some(i) => {
                self.entries.set(i, entry);
                proof {
                    assert forall|k: int| 0 <= k < self.entries_seq().len() implies (
                    #[trigger] self.entries_seq()[k]).ch == old_t.entries_seq()[k].ch by {}
                    assert(self.wf());
                    assert forall|c: char| true implies self.model().contains_key(c)
                        == old_t.model().insert(
                        entry.ch,
                        (entry.name@, entry.replacement),
                    ).contains_key(c) by {
                        if old_t.disallowed(c) {
                            let j = old_t.idx_of(c);
                            assert(self.entries_seq()[j].ch == c);
                        }
                        if self.disallowed(c) {
                            let j = self.idx_of(c);
                            assert(old_t.entries_seq()[j].ch == c);
                        }
                    }
                    assert forall|c: char| self.model().contains_key(c) implies self.model()[c]
                        == old_t.model().insert(entry.ch, (entry.name@, entry.replacement))[c] by {
                        if c == entry.ch {
                            self.lemma_lookup_unique(c, i as int);
                        } else {
                            let j = self.idx_of(c);
                            assert(self.entries_seq()[j].ch == c);
                            assert(j != i as int);
                            assert(old_t.entries_seq()[j].ch == c);
                            old_t.lemma_lookup_unique(c, j);
                        }
                    }
                    assert(self.model() =~= old_t.model().insert(
                        entry.ch,
                        (entry.name@, entry.replacement),
                    ));
                }
            },
            None => {
                let ghost n = self.entries_seq().len() as int;
                self.entries.push(entry);
                proof {
                    assert forall|k: int| 0 <= k < n implies (#[trigger] self.entries_seq()[k]).ch
                        == old_t.entries_seq()[k].ch by {}
                    assert(self.entries_seq()[n].ch == entry.ch);
                    assert forall|i: int, j: int|
                        0 <= i < j < self.entries_seq().len() implies self.entries_seq()[i].ch
                        != self.entries_seq()[j].ch by {
                        if j < n {
                            assert(old_t.entries_seq()[i].ch != old_t.entries_seq()[j].ch);
                        } else {
                            assert(!old_t.disallowed(entry.ch));
                            assert(old_t.entries_seq()[i].ch != entry.ch);
                        }
                    }
                    assert forall|c: char| true implies self.model().contains_key(c)
                        == old_t.model().insert(
                        entry.ch,
                        (entry.name@, entry.replacement),
                    ).contains_key(c) by {
                        if old_t.disallowed(c) {
                            let j = old_t.idx_of(c);
                            assert(self.entries_seq()[j].ch == c);
                        }
                        if self.disallowed(c) && c != entry.ch {
                            let j = self.idx_of(c);
                            assert(j != n);
                            assert(old_t.entries_seq()[j].ch == c);
                        }
                    }
                    assert forall|c: char| self.model().contains_key(c) implies self.model()[c]
                        == old_t.model().insert(entry.ch, (entry.name@, entry.replacement))[c] by {
                        if c == entry.ch {
                            self.lemma_lookup_unique(c, n);
                        } else {
                            let j = self.idx_of(c);
                            assert(self.entries_seq()[j].ch == c);
                            assert(j != n);
                            assert(old_t.entries_seq()[j].ch == c);
                            old_t.lemma_lookup_unique(c, j);
                        }
                    }
                    assert(self.model() =~= old_t.model().insert(
                        entry.ch,
                        (entry.name@, entry.replacement),
                    ));
                }
            },
        }
    }

    /// Builds a table from already-parsed configuration pairs. Each key's
    /// first character becomes a disallowed character; a key with no
    /// character at all is a configuration error.
    pub fn load_from_pairs(pairs: &Vec<(String, Vec<String>)>) -> (r: Result<RuleTable, ConfigError>)
        ensures
            match r {
                Ok(t) => t.wf() && all_keys_nonempty(pairs.deep_view()) && t.model()
                    == pairs_model(pairs.deep_view()),
                Err(e) => e == ConfigError::EmptyKey && !all_keys_nonempty(pairs.deep_view()),
            },
    {
        let ghost dv = pairs.deep_view();
        let mut table = RuleTable { entries: Vec::new() };
        proof {
            assert(table.model() =~= pairs_model(dv.take(0)));
        }
        let n = pairs.len();
        for k in 0..n
            invariant
                n == pairs@.len(),
                dv == pairs.deep_view(),
                dv.len() == n,
                table.wf(),
                all_keys_nonempty(dv.take(k as int)),
                table.model() == pairs_model(dv.take(k as int)),
        {
            let key: &String = &pairs[k].0;
            let vals: &Vec<String> = &pairs[k].1;
            proof {
                assert(dv[k as int] == (pairs@[k as int].0@, pairs@[k as int].1.deep_view()));
            }
            if key.as_str().unicode_len() == 0 {
                proof {
                    assert(dv[k as int].0.len() == 0);
                }
                return Err(ConfigError::EmptyKey);
            }
            let ch = key.as_str().get_char(0);
            let name = if vals.len() >= 1 {
                vals[0].clone()
            } else {
                "UNKNOWN".to_owned()
            };
            let replacement = if vals.len() >= 2 && vals[1].as_str().unicode_len() > 0 {
                vals[1].as_str().get_char(0)
            } else {
                FALLBACK_MARKER
            };
            proof {
                assert(name@ == entry_name(dv[k as int].1));
                assert(replacement == entry_replacement(dv[k as int].1));
            }
            table.insert_entry(RuleEntry { ch, name, replacement });
            proof {
                assert(dv.take(k + 1).drop_last() =~= dv.take(k as int));
                assert(dv.take(k + 1).last() == dv[k as int]);
                assert forall|i: int| 0 <= i < k + 1 implies (#[trigger] dv.take(k + 1)[i]).0.len()
                    > 0 by {}
            }
        }
        proof {
            assert(dv.take(n as int) =~= dv);
        }
        Ok(table)
    }

    /// Builds a table from a JSON configuration text: an object mapping each
    /// key string to a list `[display_name, replacement]`. Fails with
    /// `NotParseable` exactly on text that is not such an object, and with
    /// `EmptyKey` exactly where some key holds no character; otherwise every
    /// key\'s first character is disallowed, with the name and replacement of
    /// some key starting with it.
    #[verifier::rlimit(30)]
    pub fn load(config: &str) -> (r: Result<RuleTable, ConfigError>)
        ensures
            r == Err::<RuleTable, ConfigError>(ConfigError::NotParseable) <==> parsed_config(
                config@,
            ) is None,
            parsed_config(config@) is Some ==> (r == Err::<RuleTable, ConfigError>(
                ConfigError::EmptyKey,
            ) <==> exists|k: Seq<char>|
                #[trigger] (parsed_config(config@)->Some_0).contains_key(k) && k.len() == 0),
            r matches Ok(t) ==> t.wf(),
            r matches Ok(t) ==> forall|k: Seq<char>|
                #[trigger] (parsed_config(config@)->Some_0).contains_key(k) ==> t.disallowed(k[0]),
            r matches Ok(t) ==> forall|c: char| #[trigger]
                t.disallowed(c) ==> exists|k: Seq<char>|
                    #[trigger] (parsed_config(config@)->Some_0).contains_key(k) && k[0] == c
                        && t.model()[c] == (
                    entry_name((parsed_config(config@)->Some_0)[k]),
                    entry_replacement((parsed_config(config@)->Some_0)[k]),
                    ),
    {
        match parse_config_pairs(config) {
            Ok(pairs) => {
                let ghost dv = pairs.deep_view();
                let ghost m = pairs_map(dv);
                let r = RuleTable::load_from_pairs(&pairs);
                proof {
                    assert(parsed_config(config@) == Some(m));
                    assert(parsed_config(config@)->Some_0 == m);
                    lemma_pairs_map_dom(dv);
                    match &r {
                        Ok(t) => {
                            assert forall|k: Seq<char>| #[trigger]
                                m.contains_key(k) implies t.disallowed(k[0]) by {
                                let i = choose|i: int| 0 <= i < dv.len() && (#[trigger] dv[i]).0
                                    == k;
                                lemma_pairs_model_dom(dv);
                                assert(dv[i].0[0] == k[0]);
                                assert(pairs_model(dv).contains_key(k[0]));
                            }
                            assert forall|c: char| #[trigger] t.disallowed(c) implies exists|
                                k: Seq<char>,
                            |
                                #[trigger] m.contains_key(k) && k[0] == c && t.model()[c] == (
                                entry_name(m[k]),
                                entry_replacement(m[k]),
                            ) by {
                                lemma_pairs_model_dom(dv);
                                assert(pairs_model(dv).contains_key(c));
                                lemma_pairs_model_value(dv, c);
                                let j = choose|j: int|
                                    0 <= j < dv.len() && (#[trigger] dv[j]).0[0] == c
                                        && pairs_model(dv)[c] == (
                                    entry_name(dv[j].1),
                                    entry_replacement(dv[j].1),
                                    );
                                assert(forall|i1: int, i2: int|
                                    0 <= i1 < i2 < dv.len() ==> (#[trigger] dv[i1]).0 != (
                                    #[trigger] dv[i2]).0);
                                lemma_pairs_map_value(dv, j);
                                assert(m.contains_key(dv[j].0) && dv[j].0[0] == c && t.model()[c]
                                    == (entry_name(m[dv[j].0]), entry_replacement(m[dv[j].0])));
                            }
                            assert forall|k: Seq<char>| #[trigger]
                                m.contains_key(k) implies k.len() > 0 by {
                                let i = choose|i: int| 0 <= i < dv.len() && (#[trigger] dv[i]).0
                                    == k;
                                assert(all_keys_nonempty(dv));
                                assert(dv[i].0.len() > 0);
                            }
                        },
                        Err(e) => {
                            assert(*e == ConfigError::EmptyKey);
                            assert(!all_keys_nonempty(dv));
                            let i = choose|i: int| 0 <= i < dv.len() && !((#[trigger] dv[i]).0.len()
                                > 0);
                            assert(m.contains_key(dv[i].0) && dv[i].0.len() == 0);
                        },
                    }
                }
                r
            },
            Err(_) => Err(ConfigError::NotParseable),
        }
    }
}

/// Relies on serde_json::Error, the parser's error type, carried opaquely.
#[verifier::external_type_specification]
#[verifier::external_body]
pub struct ExSerdeJsonError(serde_json::Error);

/// Relies on serde_json::from_str: parses JSON text into a map from string
/// keys to lists of strings, succeeding exactly where the text is such a JSON
/// document; map keys are unique, and the pairs, read as a mapping, are the
/// parsed content (only their order, from walking a hash map, is open).
#[verifier::external_body]
fn parse_config_pairs(s: &str) -> (r: Result<Vec<(String, Vec<String>)>, serde_json::Error>)
    ensures
        r is Ok <==> parsed_config(s@) is Some,
        r matches Ok(pairs) ==> (forall|i: int, j: int|
            0 <= i < j < pairs@.len() ==> pairs@[i].0@ != pairs@[j].0@)
            && parsed_config(s@) == Some(pairs_map(pairs.deep_view())),
{
    match serde_json::from_str::<std::collections::HashMap<String, Vec<String>>>(s) {
        Ok(m) => Ok(m.into_iter().collect()),
        Err(e) => Err(e),
    }
}

} // verus!
