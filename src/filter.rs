//! Per-source filters, and the ordered rules that decide which sources feed
//! an input and under which filter.

use vstd::prelude::*;

use crate::endpoints::SourceId;

verus! {

/// Whether bit `i` of `mask` is set, for `i` below 16.
pub open spec fn mask_bit(mask: u16, i: u8) -> bool {
    i < 16 && (mask >> (i as u16)) & 1u16 == 1u16
}

proof fn lemma_mask_update(mask: u16, i: u16, j: u16)
    by (bit_vector)
    requires
        i < 16,
        j < 16,
    ensures
        ((mask | (1u16 << i)) >> j) & 1u16 == (if i == j { 1u16 } else { (mask >> j) & 1u16 }),
        ((mask & !(1u16 << i)) >> j) & 1u16 == (if i == j { 0u16 } else { (mask >> j) & 1u16 }),
        (0xffffu16 >> j) & 1u16 == 1u16,
        (0u16 >> j) & 1u16 == 0u16,
{
}

fn set_bit(mask: u16, i: u8, enabled: bool) -> (r: u16)
    requires
        i < 16,
    ensures
        forall|j: u8| #[trigger] mask_bit(r, j) == if j == i { enabled } else { mask_bit(mask, j) },
{
    let r = if enabled {
        mask | (1u16 << (i as u16))
    } else {
        mask & !(1u16 << (i as u16))
    };
    assert forall|j: u8| #[trigger] mask_bit(r, j) == if j == i { enabled } else { mask_bit(mask, j) } by {
        if j < 16 {
            lemma_mask_update(mask, i as u16, j as u16);
        }
    }
    r
}

fn get_bit(mask: u16, i: u8) -> (r: bool)
    ensures
        r == mask_bit(mask, i),
{
    i < 16 && (mask >> (i as u16)) & 1u16 == 1u16
}

/// Which decoded messages of a source are forwarded to an input: by message
/// type, by group, and by channel within a group.
#[derive(Debug, Clone, Copy, PartialEq, Eq)]
pub struct Filter {
    mtypes: u16,
    groups: u16,
    channels: [u16; 16],
}

impl Filter {
    pub closed spec fn accepts_mtype(self, mtype: u8) -> bool {
        mask_bit(self.mtypes, mtype)
    }

    pub closed spec fn accepts_group(self, group: u8) -> bool {
        mask_bit(self.groups, group)
    }

    pub closed spec fn accepts_channel(self, group: u8, channel: u8) -> bool {
        group < 16 && mask_bit(self.channels[group as int], channel)
    }

    /// A filter that lets every message through.
    pub fn new() -> (r: Filter)
        ensures
            forall|m: u8| #[trigger] r.accepts_mtype(m) == (m < 16),
            forall|g: u8| #[trigger] r.accepts_group(g) == (g < 16),
            forall|g: u8, c: u8| #[trigger] r.accepts_channel(g, c) == (g < 16 && c < 16),
    {
        let r = Filter { mtypes: 0xffffu16, groups: 0xffffu16, channels: [0xffffu16; 16] };
        assert forall|j: u8| j < 16 implies #[trigger] mask_bit(0xffffu16, j) by {
            lemma_mask_update(0, 0, j as u16);
        }
        r
    }

    /// A filter that lets no message through.
    pub fn none() -> (r: Filter)
        ensures
            forall|m: u8| !#[trigger] r.accepts_mtype(m),
            forall|g: u8| !#[trigger] r.accepts_group(g),
            forall|g: u8, c: u8| !#[trigger] r.accepts_channel(g, c),
    {
        let r = Filter { mtypes: 0u16, groups: 0u16, channels: [0u16; 16] };
        assert forall|j: u8| j < 16 implies !#[trigger] mask_bit(0u16, j) by {
            lemma_mask_update(0, 0, j as u16);
        }
        r
    }

    /// Whether messages of this message type pass.
    pub fn mtype(&self, mtype: u8) -> (r: bool)
        ensures
            r == self.accepts_mtype(mtype),
    {
        get_bit(self.mtypes, mtype)
    }

    /// Whether messages on this group pass.
    pub fn group(&self, group: u8) -> (r: bool)
        ensures
            r == self.accepts_group(group),
    {
        get_bit(self.groups, group)
    }

    /// Whether channel messages on this group and channel pass.
    pub fn channel(&self, group: u8, channel: u8) -> (r: bool)
        ensures
            r == self.accepts_channel(group, channel),
    {
        group < 16 && get_bit(self.channels[group as usize], channel)
    }

    /// The same filter with one message type let through or held back; a
    /// message type of 16 or more leaves it unchanged.
    pub fn with_mtype(self, mtype: u8, enabled: bool) -> (r: Filter)
        ensures
            forall|m: u8| #[trigger] r.accepts_mtype(m)
                == if m == mtype && mtype < 16 { enabled } else { self.accepts_mtype(m) },
            forall|g: u8| #[trigger] r.accepts_group(g) == self.accepts_group(g),
            forall|g: u8, c: u8| #[trigger] r.accepts_channel(g, c) == self.accepts_channel(g, c),
    {
        if mtype < 16 {
            Filter { mtypes: set_bit(self.mtypes, mtype, enabled), ..self }
        } else {
            self
        }
    }

    /// The same filter with one group let through or held back; a group of
    /// 16 or more leaves it unchanged.
    pub fn with_group(self, group: u8, enabled: bool) -> (r: Filter)
        ensures
            forall|m: u8| #[trigger] r.accepts_mtype(m) == self.accepts_mtype(m),
            forall|g: u8| #[trigger] r.accepts_group(g)
                == if g == group && group < 16 { enabled } else { self.accepts_group(g) },
            forall|g: u8, c: u8| #[trigger] r.accepts_channel(g, c) == self.accepts_channel(g, c),
    {
        if group < 16 {
            Filter { groups: set_bit(self.groups, group, enabled), ..self }
        } else {
            self
        }
    }

    /// The same filter with one channel of one group let through or held
    /// back; a group or channel of 16 or more leaves it unchanged.
    pub fn with_channel(self, group: u8, channel: u8, enabled: bool) -> (r: Filter)
        ensures
            forall|m: u8| #[trigger] r.accepts_mtype(m) == self.accepts_mtype(m),
            forall|g: u8| #[trigger] r.accepts_group(g) == self.accepts_group(g),
            forall|g: u8, c: u8| #[trigger] r.accepts_channel(g, c)
                == if g == group && c == channel && group < 16 && channel < 16 {
                    enabled
                } else {
                    self.accepts_channel(g, c)
                },
    {
        if group < 16 && channel < 16 {
            let mut channels = self.channels;
            let mask = set_bit(channels[group as usize], channel, enabled);
            channels[group as usize] = mask;
            Filter { channels, ..self }
        } else {
            self
        }
    }
}

impl Default for Filter {
    fn default() -> (r: Filter)
        ensures
            forall|m: u8| #[trigger] r.accepts_mtype(m) == (m < 16),
            forall|g: u8| #[trigger] r.accepts_group(g) == (g < 16),
            forall|g: u8, c: u8| #[trigger] r.accepts_channel(g, c) == (g < 16 && c < 16),
    {
        Filter::new()
    }
}

/// Whether the regular expression `pattern` compiles.
pub uninterp spec fn regex_compiles(pattern: Seq<char>) -> bool;

/// Whether the regular expression `pattern`, compiled, finds a match
/// anywhere in `text`.
pub uninterp spec fn regex_finds(pattern: Seq<char>, text: Seq<char>) -> bool;

/// Relies on `regex::Regex::new`: whether the pattern is a regular
/// expression that compiles.
#[verifier::external_body]
fn compiles(pattern: &str) -> (r: bool)
    ensures
        r == regex_compiles(pattern@),
{
    regex::Regex::new(pattern).is_ok()
}

/// Relies on `regex::Regex::is_match` of the compiled pattern: whether it
/// matches somewhere in `text`. A pattern that does not compile matches
/// nothing.
#[verifier::external_body]
fn finds(pattern: &str, text: &str) -> (r: bool)
    ensures
        r == regex_finds(pattern@, text@),
        !regex_compiles(pattern@) ==> !r,
{
    match regex::Regex::new(pattern) {
        Ok(re) => re.is_match(text),
        Err(_) => false,
    }
}

/// A rule on sources: by id, by exact name, or by a regular expression
/// searched for in the name.
#[derive(Debug, Clone, PartialEq, Eq)]
pub enum SourceMatch {
    Id(SourceId),
    Name(String),
    Regex(String),
}

impl SourceMatch {
    /// Whether a source with this id and name satisfies the rule.
    pub open spec fn matches_spec(self, id: SourceId, name: Seq<char>) -> bool {
        match self {
            SourceMatch::Id(i) => i == id,
            SourceMatch::Name(n) => n@ == name,
            SourceMatch::Regex(p) => regex_finds(p@, name),
        }
    }

    /// A rule on the source with this id.
    pub fn id(id: SourceId) -> (r: SourceMatch)
        ensures
            r == SourceMatch::Id(id),
    {
        SourceMatch::Id(id)
    }

    /// A rule on sources with exactly this name.
    pub fn name(name: &str) -> (r: SourceMatch)
        ensures
            r is Name && r->Name_0@ == name@,
    {
        SourceMatch::Name(name.to_owned())
    }

    /// A rule on sources whose name holds a match of the regular expression;
    /// `None` where the pattern does not compile.
    pub fn regex(pattern: &str) -> (r: Option<SourceMatch>)
        ensures
            r is Some == regex_compiles(pattern@),
            r is Some ==> r->Some_0 is Regex && r->Some_0->Regex_0@ == pattern@,
    {
        if compiles(pattern) {
            Some(SourceMatch::Regex(pattern.to_owned()))
        } else {
            None
        }
    }

    /// Whether a source with this id and name satisfies the rule.
    pub fn matches(&self, id: SourceId, name: &str) -> (r: bool)
        ensures
            r == self.matches_spec(id, name@),
    {
        match self {
            SourceMatch::Id(i) => *i == id,
            SourceMatch::Name(n) => str_eq(n.as_str(), name),
            SourceMatch::Regex(p) => finds(p.as_str(), name),
        }
    }

    /// A copy of the rule.
    pub fn copied(&self) -> (r: SourceMatch)
        ensures
            r == *self,
    {
        match self {
            SourceMatch::Id(i) => SourceMatch::Id(*i),
            SourceMatch::Name(n) => SourceMatch::Name(n.clone()),
            SourceMatch::Regex(p) => SourceMatch::Regex(p.clone()),
        }
    }
}

/// Whether two strings hold the same characters.
pub fn str_eq(a: &str, b: &str) -> (r: bool)
    ensures
        r == (a@ == b@),
{
    let n = a.unicode_len();
    if n != b.unicode_len() {
        return false;
    }
    let mut i: usize = 0;
    while i < n
        invariant
            n == a@.len(),
            n == b@.len(),
            i <= n,
            forall|k: int| 0 <= k < i ==> a@[k] == b@[k],
        decreases n - i,
    {
        if a.get_char(i) != b.get_char(i) {
            return false;
        }
        i = i + 1;
    }
    assert(a@ =~= b@);
    true
}

/// The filter of the first rule in `rules` that a source with this id and
/// name satisfies.
pub open spec fn first_match(rules: Seq<(SourceMatch, Filter)>, id: SourceId, name: Seq<char>) -> Option<Filter>
    decreases rules.len(),
{
    if rules.len() == 0 {
        None
    } else if rules[0].0.matches_spec(id, name) {
        Some(rules[0].1)
    } else {
        first_match(rules.drop_first(), id, name)
    }
}

/// The ordered rules of an input: each names the sources it takes and the
/// filter that their messages pass through.
#[derive(Debug, Clone, PartialEq, Eq)]
pub struct SourceMatches {
    sources: Vec<(SourceMatch, Filter)>,
}

impl SourceMatches {
    pub closed spec fn rules(&self) -> Seq<(SourceMatch, Filter)> {
        self.sources@
    }

    /// No rules: no source matches.
    pub fn new() -> (r: SourceMatches)
        ensures
            r.rules() == Seq::<(SourceMatch, Filter)>::empty(),
    {
        SourceMatches { sources: Vec::new() }
    }

    /// The same rules followed by one more.
    pub fn with_source(self, source: SourceMatch, filter: Filter) -> (r: SourceMatches)
        ensures
            r.rules() == self.rules().push((source, filter)),
    {
        let mut r = self;
        r.add_source(source, filter);
        r
    }

    /// Appends a rule after the existing ones.
    pub fn add_source(&mut self, source: SourceMatch, filter: Filter)
        ensures
            final(self).rules() == old(self).rules().push((source, filter)),
    {
        self.sources.push((source, filter));
    }

    /// The number of rules.
    pub fn len(&self) -> (r: usize)
        ensures
            r == self.rules().len(),
    {
        self.sources.len()
    }

    /// The filter of the first rule, in declared order, that the source
    /// satisfies; `None` where no rule does.
    pub fn match_filter(&self, id: SourceId, name: &str) -> (r: Option<Filter>)
        ensures
            r == first_match(self.rules(), id, name@),
    {
        let rules = &self.sources;
        let mut i: usize = 0;
        assert(rules@.subrange(0, rules@.len() as int) =~= rules@);
        while i < rules.len()
            invariant
                rules@ == self.rules(),
                i <= rules@.len(),
                first_match(rules@, id, name@) == first_match(rules@.subrange(i as int, rules@.len() as int), id, name@),
            decreases rules@.len() - i,
        {
            let ghost rest = rules@.subrange(i as int, rules@.len() as int);
            assert(rest.drop_first() =~= rules@.subrange(i + 1, rules@.len() as int));
            assert(rest[0] == rules@[i as int]);
            if rules[i].0.matches(id, name) {
                assert(rest.len() > 0 && rest[0].0.matches_spec(id, name@));
                assert(first_match(rest, id, name@) == Some(rest[0].1));
                return Some(rules[i].1);
            }
            i = i + 1;
        }
        None
    }

    /// A copy of the rules.
    pub fn copied(&self) -> (r: SourceMatches)
        ensures
            r.rules() == self.rules(),
    {
        let mut sources: Vec<(SourceMatch, Filter)> = Vec::new();
        let mut i: usize = 0;
        while i < self.sources.len()
            invariant
                i <= self.sources@.len(),
                sources@ == self.sources@.subrange(0, i as int),
            decreases self.sources@.len() - i,
        {
            let (m, f) = &self.sources[i];
            sources.push((m.copied(), *f));
            i = i + 1;
            assert(sources@ =~= self.sources@.subrange(0, i as int));
        }
        assert(sources@ =~= self.sources@);
        SourceMatches { sources }
    }
}

impl Default for SourceMatches {
    fn default() -> (r: SourceMatches)
        ensures
            r.rules() == Seq::<(SourceMatch, Filter)>::empty(),
    {
        SourceMatches::new()
    }
}

/// The rule whose filter a source gets is the first one, in declared order,
/// that it satisfies, and a source that satisfies no rule gets none.
pub proof fn lemma_match_filter_takes_first_rule(matches: SourceMatches, id: SourceId, name: Seq<char>)
    ensures
        first_match(matches.rules(), id, name) is None <==> forall|i: int|
            0 <= i < matches.rules().len() ==> !(#[trigger] matches.rules()[i]).0.matches_spec(id, name),
        first_match(matches.rules(), id, name) is Some ==> exists|i: int|
            0 <= i < matches.rules().len()
            && (#[trigger] matches.rules()[i]).0.matches_spec(id, name)
            && matches.rules()[i].1 == first_match(matches.rules(), id, name)->Some_0
            && forall|j: int| 0 <= j < i ==> !(#[trigger] matches.rules()[j]).0.matches_spec(id, name),
{
    lemma_first_match(matches.rules(), id, name);
}

proof fn lemma_first_match(rules: Seq<(SourceMatch, Filter)>, id: SourceId, name: Seq<char>)
    ensures
        first_match(rules, id, name) is None <==> forall|i: int|
            0 <= i < rules.len() ==> !(#[trigger] rules[i]).0.matches_spec(id, name),
        first_match(rules, id, name) is Some ==> exists|i: int|
            0 <= i < rules.len()
            && (#[trigger] rules[i]).0.matches_spec(id, name)
            && rules[i].1 == first_match(rules, id, name)->Some_0
            && forall|j: int| 0 <= j < i ==> !(#[trigger] rules[j]).0.matches_spec(id, name),
    decreases rules.len(),
{
    if rules.len() > 0 && !rules[0].0.matches_spec(id, name) {
        let rest = rules.drop_first();
        lemma_first_match(rest, id, name);
        assert forall|i: int| 0 < i < rules.len() implies rules[i] == #[trigger] rest[i - 1] by {}
        if first_match(rules, id, name) is Some {
            let k = choose|k: int|
                0 <= k < rest.len()
                && (#[trigger] rest[k]).0.matches_spec(id, name)
                && rest[k].1 == first_match(rest, id, name)->Some_0
                && forall|j: int| 0 <= j < k ==> !(#[trigger] rest[j]).0.matches_spec(id, name);
            assert(rules[k + 1] == rest[k]);
            assert forall|j: int| 0 <= j < k + 1 implies !(#[trigger] rules[j]).0.matches_spec(id, name) by {
                if j > 0 {
                    assert(rules[j] == rest[j - 1]);
                }
            }
        } else {
            assert forall|i: int| 0 <= i < rules.len() implies !(#[trigger] rules[i]).0.matches_spec(id, name) by {
                if i > 0 {
                    assert(rules[i] == rest[i - 1]);
                }
            }
        }
    } else if rules.len() > 0 {
        assert(rules[0].0.matches_spec(id, name));
    }
}

} // verus!
