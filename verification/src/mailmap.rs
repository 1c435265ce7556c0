//! Author-identity normalization from an alias-mapping ("mailmap") file.
//!
//! Each data line of the file maps an old identity, keyed by its email, to
//! a replacement name and email. A rule may carry name-specific
//! replacements so that one shared email can stand for several people.
//! Lookup never fails: an identity without a matching rule is formatted as
//! it came.
//!
//! Grammar of a data line (see [`parse_rule_line`]): an optional
//! replacement name, then `<email>`, then optionally an old name and a
//! second `<email>`. When only one `<email>` is present it is the key and
//! no replacement email is recorded; when two are present the first is the
//! replacement and the second is the key. Lines starting with `#`, and
//! lines that do not fit the grammar, are skipped.

use vstd::prelude::*;

verus! {

/// Whitespace as the line grammar understands it.
pub open spec fn is_space(c: char) -> bool {
    c == ' ' || c == '\t' || c == '\r'
}

/// `s` without leading whitespace.
pub open spec fn trim_front(s: Seq<char>) -> Seq<char>
    decreases s.len(),
{
    if s.len() > 0 && is_space(s.first()) {
        trim_front(s.drop_first())
    } else {
        s
    }
}

/// `s` without trailing whitespace.
pub open spec fn trim_back(s: Seq<char>) -> Seq<char>
    decreases s.len(),
{
    if s.len() > 0 && is_space(s.last()) {
        trim_back(s.drop_last())
    } else {
        s
    }
}

/// `s` without leading or trailing whitespace.
pub open spec fn trim_seq(s: Seq<char>) -> Seq<char> {
    trim_back(trim_front(s))
}

/// The first position of `c` in `s` at or after `from`, or -1.
pub open spec fn find_from(s: Seq<char>, c: char, from: int) -> int
    decreases s.len() - from,
{
    if from < 0 || from >= s.len() {
        -1
    } else if s[from] == c {
        from
    } else {
        find_from(s, c, from + 1)
    }
}

proof fn lemma_trim_front_is_skip(s: Seq<char>, lo: int)
    requires
        0 <= lo <= s.len(),
        forall|j: int| 0 <= j < lo ==> is_space(#[trigger] s[j]),
        lo < s.len() ==> !is_space(s[lo]),
    ensures
        trim_front(s) == s.skip(lo),
    decreases lo,
{
    if lo == 0 {
        assert(s.skip(0) =~= s);
    } else {
        assert(is_space(s[0]));
        let d = s.drop_first();
        assert(forall|j: int| 0 <= j < lo - 1 ==> is_space(#[trigger] d[j]));
        lemma_trim_front_is_skip(d, lo - 1);
        assert(d.skip(lo - 1) =~= s.skip(lo));
    }
}

proof fn lemma_trim_back_is_take(s: Seq<char>, hi: int)
    requires
        0 <= hi <= s.len(),
        forall|j: int| hi <= j < s.len() ==> is_space(#[trigger] s[j]),
        hi > 0 ==> !is_space(s[hi - 1]),
    ensures
        trim_back(s) == s.take(hi),
    decreases s.len() - hi,
{
    if hi == s.len() {
        assert(s.take(hi) =~= s);
        if s.len() > 0 {
            assert(!is_space(s.last()));
        }
    } else {
        assert(is_space(s[s.len() - 1]));
        let d = s.drop_last();
        lemma_trim_back_is_take(d, hi);
        assert(d.take(hi) =~= s.take(hi));
    }
}

proof fn lemma_find_from_step(s: Seq<char>, c: char, from: int, i: int)
    requires
        0 <= from <= i <= s.len(),
        forall|j: int| from <= j < i ==> s[j] != c,
    ensures
        find_from(s, c, from) == find_from(s, c, i),
    decreases i - from,
{
    if from < i {
        lemma_find_from_step(s, c, from + 1, i);
    }
}

/// The first position of `c` in `s` at or after `from`, if any.
fn find_char_from(s: &str, c: char, from: usize) -> (r: Option<usize>)
    ensures
        match r {
            Option::Some(i) => from <= i < s@.len() && find_from(s@, c, from as int) == i as int
                && s@[i as int] == c,
            Option::None => find_from(s@, c, from as int) == -1,
        },
{
    let n = s.unicode_len();
    if from >= n {
        return Option::None;
    }
    let mut i = from;
    while i < n
        invariant
            from <= i <= n,
            n == s@.len(),
            forall|j: int| from <= j < i ==> s@[j] != c,
        decreases n - i,
    {
        if s.get_char(i) == c {
            proof {
                lemma_find_from_step(s@, c, from as int, i as int);
            }
            return Option::Some(i);
        }
        i += 1;
    }
    proof {
        lemma_find_from_step(s@, c, from as int, n as int);
    }
    Option::None
}

/// Whitespace as the line grammar understands it.
fn is_space_char(c: char) -> (r: bool)
    ensures
        r == is_space(c),
{
    c == ' ' || c == '\t' || c == '\r'
}

/// The trimmed span of `s@` between `from` and `to`, as an owned string.
fn trimmed_range(s: &str, from: usize, to: usize) -> (r: String)
    requires
        from <= to <= s@.len(),
    ensures
        r@ == trim_seq(s@.subrange(from as int, to as int)),
{
    let mut lo = from;
    while lo < to && is_space_char(s.get_char(lo))
        invariant
            from <= lo <= to,
            to <= s@.len(),
            forall|j: int| from <= j < lo ==> is_space(#[trigger] s@[j]),
        decreases to - lo,
    {
        lo += 1;
    }
    let mut hi = to;
    while hi > lo && is_space_char(s.get_char(hi - 1))
        invariant
            lo <= hi <= to,
            to <= s@.len(),
            forall|j: int| hi <= j < to ==> is_space(#[trigger] s@[j]),
        decreases hi,
    {
        hi -= 1;
    }
    let piece = s.substring_char(lo, hi);
    proof {
        let sub = s@.subrange(from as int, to as int);
        let l = lo - from;
        let h = hi - from;
        assert(forall|j: int| 0 <= j < l ==> is_space(#[trigger] sub[j]));
        assert(l < sub.len() ==> !is_space(sub[l]));
        lemma_trim_front_is_skip(sub, l);
        let skipped = sub.skip(l);
        assert(forall|j: int| h - l <= j < skipped.len() ==> is_space(#[trigger] skipped[j]));
        assert(h - l > 0 ==> !is_space(skipped[h - l - 1]));
        lemma_trim_back_is_take(skipped, h - l);
        assert(skipped.take(h - l) =~= s@.subrange(lo as int, hi as int));
    }
    String::from_str(piece)
}

/// `name <email>`: the display form of an identity.
pub open spec fn spec_format_identity(n: Seq<char>, e: Seq<char>) -> Seq<char> {
    n + " <"@ + e + ">"@
}

/// `name <email>`: the display form of an identity.
pub fn format_identity(name: &str, email: &str) -> (r: String)
    ensures
        r@ == spec_format_identity(name@, email@),
{
    let r = String::from_str(name).concat(" <").concat(email).concat(">");
    proof {
        assert(r@ =~= spec_format_identity(name@, email@));
    }
    r
}

/// The view of a rule: replacement name and email (either may be left
/// unset), plus name-specific replacement rules.
#[verifier::ext_equal]
pub struct AuthorView {
    pub name: Option<Seq<char>>,
    pub email: Option<Seq<char>>,
    pub namemap: Map<Seq<char>, AuthorView>,
}

/// The view of an optional string.
pub open spec fn opt_view(o: Option<String>) -> Option<Seq<char>> {
    match o {
        Option::Some(s) => Option::Some(s@),
        Option::None => Option::None,
    }
}

/// An empty rule: nothing replaced.
pub open spec fn empty_rule() -> AuthorView {
    AuthorView { name: Option::None, email: Option::None, namemap: Map::empty() }
}

/// One mailmap rule: the replacement identity for a keyed old email,
/// optionally specialized by old name.
pub struct Author {
    pub name: Option<String>,
    pub email: Option<String>,
    namemap: Vec<(String, Author)>,
}

/// The rule map read off an association list, later entries overriding
/// earlier ones.
pub closed spec fn author_map(s: Seq<(String, Author)>) -> Map<Seq<char>, AuthorView>
    decreases s,
{
    if s.len() == 0 {
        Map::empty()
    } else {
        author_map(s.drop_last()).insert(s.last().0@, author_view(s.last().1))
    }
}

/// The view of a rule value.
pub closed spec fn author_view(a: Author) -> AuthorView
    decreases a,
{
    AuthorView {
        name: opt_view(a.name),
        email: opt_view(a.email),
        namemap: author_map(a.namemap@),
    }
}

/// Pairwise distinct keys, compared as character sequences.
pub open spec fn distinct_author_keys(s: Seq<(String, Author)>) -> bool {
    forall|i: int, j: int| 0 <= i < j < s.len() ==> s[i].0@ != s[j].0@
}

/// Every listed rule is internally well-formed.
pub closed spec fn entries_wf(s: Seq<(String, Author)>) -> bool
    decreases s,
{
    if s.len() == 0 {
        true
    } else {
        entries_wf(s.drop_last()) && author_wf(s.last().1)
    }
}

/// A rule's representation invariant: its name-specific rules have
/// distinct keys and are themselves well-formed.
pub closed spec fn author_wf(a: Author) -> bool
    decreases a,
{
    distinct_author_keys(a.namemap@) && entries_wf(a.namemap@)
}

impl View for Author {
    type V = AuthorView;

    open spec fn view(&self) -> AuthorView {
        author_view(*self)
    }
}

proof fn lemma_author_map_dom(s: Seq<(String, Author)>)
    ensures
        forall|k: Seq<char>|
            author_map(s).dom().contains(k) <==> exists|i: int| 0 <= i < s.len() && s[i].0@ == k,
    decreases s,
{
    if s.len() > 0 {
        lemma_author_map_dom(s.drop_last());
        assert forall|k: Seq<char>|
            author_map(s).dom().contains(k) <==> exists|i: int|
                0 <= i < s.len() && s[i].0@ == k by {
            if author_map(s).dom().contains(k) {
                if k == s.last().0@ {
                    assert(s[s.len() - 1].0@ == k);
                } else {
                    assert(author_map(s.drop_last()).dom().contains(k));
                    let i = choose|i: int|
                        0 <= i < s.drop_last().len() && s.drop_last()[i].0@ == k;
                    assert(s[i].0@ == k);
                }
            }
            if exists|i: int| 0 <= i < s.len() && s[i].0@ == k {
                let i = choose|i: int| 0 <= i < s.len() && s[i].0@ == k;
                if i < s.len() - 1 {
                    assert(s.drop_last()[i].0@ == k);
                    assert(author_map(s.drop_last()).dom().contains(k));
                } else {
                    assert(k == s.last().0@);
                }
                assert(author_map(s).dom().contains(k));
            }
        }
    }
}

proof fn lemma_author_map_index(s: Seq<(String, Author)>, i: int)
    requires
        distinct_author_keys(s),
        0 <= i < s.len(),
    ensures
        author_map(s).dom().contains(s[i].0@),
        author_map(s)[s[i].0@] == author_view(s[i].1),
    decreases s,
{
    if i < s.len() - 1 {
        assert(distinct_author_keys(s.drop_last()));
        assert(s.drop_last()[i] == s[i]);
        lemma_author_map_index(s.drop_last(), i);
        assert(s[i].0@ != s.last().0@);
    }
}

proof fn lemma_author_map_absent(s: Seq<(String, Author)>, k: Seq<char>)
    requires
        forall|i: int| 0 <= i < s.len() ==> s[i].0@ != k,
    ensures
        !author_map(s).dom().contains(k),
{
    lemma_author_map_dom(s);
    if author_map(s).dom().contains(k) {
        let i = choose|i: int| 0 <= i < s.len() && s[i].0@ == k;
    }
}

proof fn lemma_author_map_update(s: Seq<(String, Author)>, i: int, x: (String, Author))
    requires
        distinct_author_keys(s),
        0 <= i < s.len(),
        x.0@ == s[i].0@,
    ensures
        author_map(s.update(i, x)) == author_map(s).insert(x.0@, author_view(x.1)),
    decreases s,
{
    let t = s.update(i, x);
    if i == s.len() - 1 {
        assert(t.drop_last() =~= s.drop_last());
        assert(author_map(t) =~= author_map(s).insert(x.0@, author_view(x.1)));
    } else {
        assert(distinct_author_keys(s.drop_last()));
        assert(s.drop_last()[i] == s[i]);
        lemma_author_map_update(s.drop_last(), i, x);
        assert(t.drop_last() =~= s.drop_last().update(i, x));
        assert(t.last() == s.last());
        assert(s[i].0@ != s.last().0@);
        assert(author_map(t) =~= author_map(s).insert(x.0@, author_view(x.1)));
    }
}

proof fn lemma_entries_wf_index(s: Seq<(String, Author)>, i: int)
    requires
        entries_wf(s),
        0 <= i < s.len(),
    ensures
        author_wf(s[i].1),
    decreases s,
{
    if i < s.len() - 1 {
        assert(s.drop_last()[i] == s[i]);
        lemma_entries_wf_index(s.drop_last(), i);
    }
}

proof fn lemma_entries_wf_update(s: Seq<(String, Author)>, i: int, x: (String, Author))
    requires
        entries_wf(s),
        author_wf(x.1),
        0 <= i < s.len(),
    ensures
        entries_wf(s.update(i, x)),
    decreases s,
{
    let t = s.update(i, x);
    if i == s.len() - 1 {
        assert(t.drop_last() =~= s.drop_last());
        assert(t.last() == x);
    } else {
        assert(s.drop_last()[i] == s[i]);
        lemma_entries_wf_update(s.drop_last(), i, x);
        assert(t.drop_last() =~= s.drop_last().update(i, x));
        assert(t.last() == s.last());
    }
}

proof fn lemma_entries_wf_push(s: Seq<(String, Author)>, x: (String, Author))
    requires
        entries_wf(s),
        author_wf(x.1),
    ensures
        entries_wf(s.push(x)),
{
    assert(s.push(x).drop_last() =~= s);
    assert(s.push(x).last() == x);
}

proof fn lemma_author_map_push(s: Seq<(String, Author)>, x: (String, Author))
    ensures
        author_map(s.push(x)) == author_map(s).insert(x.0@, author_view(x.1)),
{
    assert(s.push(x).drop_last() =~= s);
    assert(s.push(x).last() == x);
}

impl Author {
    /// Internal consistency of the rule.
    pub open spec fn wf(&self) -> bool {
        author_wf(*self)
    }

    pub fn new(name: Option<String>, email: Option<String>) -> (a: Author)
        ensures
            a@ == (AuthorView {
                name: opt_view(name),
                email: opt_view(email),
                namemap: Map::empty(),
            }),
            a.wf(),
    {
        let a = Author { name, email, namemap: Vec::new() };
        proof {
            assert(a@ =~= (AuthorView {
                name: opt_view(a.name),
                email: opt_view(a.email),
                namemap: Map::empty(),
            }));
        }
        a
    }

    /// Replace the rule's default name.
    pub fn set_name(&mut self, name: Option<String>)
        requires
            old(self).wf(),
        ensures
            final(self)@ == (AuthorView { name: opt_view(name), ..old(self)@ }),
            final(self).wf(),
    {
        self.name = name;
        proof {
            assert(self@ =~= (AuthorView { name: opt_view(self.name), ..old(self)@ }));
        }
    }

    /// Replace the rule's default email.
    pub fn set_email(&mut self, email: Option<String>)
        requires
            old(self).wf(),
        ensures
            final(self)@ == (AuthorView { email: opt_view(email), ..old(self)@ }),
            final(self).wf(),
    {
        self.email = email;
        proof {
            assert(self@ =~= (AuthorView { email: opt_view(self.email), ..old(self)@ }));
        }
    }

    /// Record a name-specific replacement, overriding any previous one
    /// for the same old name.
    pub fn namemap_insert(&mut self, name: String, author: Author)
        requires
            old(self).wf(),
            author.wf(),
        ensures
            final(self)@ == (AuthorView {
                namemap: old(self)@.namemap.insert(name@, author@),
                ..old(self)@
            }),
            final(self).wf(),
    {
        let n = self.namemap.len();
        let mut i: usize = 0;
        let mut found = false;
        while i < n && !found
            invariant
                *self == *old(self),
                old(self).wf(),
                author.wf(),
                n == self.namemap@.len(),
                i <= n,
                forall|j: int| 0 <= j < i ==> self.namemap@[j].0@ != name@,
                found ==> i < n && self.namemap@[i as int].0@ == name@,
            decreases n - i + (if found { 0int } else { 1int }),
    {
            if self.namemap[i].0 == name {
                found = true;
            } else {
                i += 1;
            }
        }
        if found {
            proof {
                lemma_author_map_update(self.namemap@, i as int, (name, author));
                lemma_entries_wf_update(self.namemap@, i as int, (name, author));
            }
            let _old = self.namemap.remove(i);
            self.namemap.insert(i, (name, author));
            proof {
                assert(self.namemap@ =~= old(self).namemap@.update(i as int, (name, author)));
                assert(forall|j: int|
                    0 <= j < self.namemap@.len() ==> self.namemap@[j].0@ == old(
                        self,
                    ).namemap@[j].0@);
                assert(distinct_author_keys(self.namemap@));
                assert(self@ =~= (AuthorView {
                    namemap: old(self)@.namemap.insert(name@, author@),
                    ..old(self)@
                }));
            }
        } else {
            proof {
                lemma_author_map_push(self.namemap@, (name, author));
                lemma_entries_wf_push(self.namemap@, (name, author));
            }
            self.namemap.push((name, author));
            proof {
                assert(self.namemap@.drop_last() =~= old(self).namemap@);
                assert(distinct_author_keys(self.namemap@)) by {
                    assert(forall|p: int, q: int|
                        0 <= p < q < self.namemap@.len() && q < self.namemap@.len() - 1
                            ==> self.namemap@[p].0@ != self.namemap@[q].0@);
                    assert(forall|p: int|
                        0 <= p < self.namemap@.len() - 1 ==> self.namemap@[p].0@ != name@);
                }
                assert(self@ =~= (AuthorView {
                    namemap: old(self)@.namemap.insert(name@, author@),
                    ..old(self)@
                }));
            }
        }
    }
}

impl Default for Author {
    /// The rule that replaces nothing.
    fn default() -> (a: Author)
        ensures
            a@ == empty_rule(),
            a.wf(),
    {
        let a = Author { name: Option::None, email: Option::None, namemap: Vec::new() };
        proof {
            assert(a@ =~= empty_rule());
        }
        a
    }
}

/// A parsed data line: the old email that keys the rule, the optional old
/// name that narrows it, and the replacement identity.
pub struct RuleLine {
    pub key: Seq<char>,
    pub old_name: Option<Seq<char>>,
    pub new_name: Option<Seq<char>>,
    pub new_email: Option<Seq<char>>,
}

/// The line grammar. A comment (leading `#`) or a line that does not fit
/// yields nothing. Otherwise: an optional name (ending in whitespace)
/// before the first `<...>`, whose trimmed inside must be non-empty; then
/// optionally, after at least one whitespace, an optional old name and a
/// second `<...>`. With one bracketed email it is the key and no
/// replacement email is recorded; with two, the first is the replacement
/// and the second is the key. Text after the parsed prefix is ignored.
pub open spec fn parse_rule_line(s: Seq<char>) -> Option<RuleLine> {
    if s.len() > 0 && s[0] == '#' {
        Option::None
    } else {
        let lt1 = find_from(s, '<', 0);
        if lt1 < 0 {
            Option::None
        } else {
            let gt1 = find_from(s, '>', lt1 + 1);
            if gt1 < 0 {
                Option::None
            } else {
                let name1 = trim_seq(s.subrange(0, lt1));
                if name1.len() > 0 && !is_space(s[lt1 - 1]) {
                    Option::None
                } else {
                    let email1 = trim_seq(s.subrange(lt1 + 1, gt1));
                    if email1.len() == 0 {
                        Option::None
                    } else {
                        let lt2 = find_from(s, '<', gt1 + 1);
                        let gt2 = if lt2 < 0 {
                            -1
                        } else {
                            find_from(s, '>', lt2 + 1)
                        };
                        if lt2 >= 0 && gt2 >= 0 {
                            if !is_space(s[lt2 - 1]) {
                                Option::None
                            } else {
                                let email2 = trim_seq(s.subrange(lt2 + 1, gt2));
                                if email2.len() == 0 {
                                    Option::None
                                } else {
                                    let oldn = trim_seq(s.subrange(gt1 + 1, lt2));
                                    Option::Some(
                                        RuleLine {
                                            key: email2,
                                            old_name: if oldn.len() == 0 {
                                                Option::None
                                            } else {
                                                Option::Some(oldn)
                                            },
                                            new_name: if name1.len() == 0 {
                                                Option::None
                                            } else {
                                                Option::Some(name1)
                                            },
                                            new_email: Option::Some(email1),
                                        },
                                    )
                                }
                            }
                        } else {
                            Option::Some(
                                RuleLine {
                                    key: email1,
                                    old_name: Option::None,
                                    new_name: if name1.len() == 0 {
                                        Option::None
                                    } else {
                                        Option::Some(name1)
                                    },
                                    new_email: Option::None,
                                },
                            )
                        }
                    }
                }
            }
        }
    }
}

proof fn lemma_trim_front_len(s: Seq<char>)
    ensures
        trim_front(s).len() <= s.len(),
    decreases s.len(),
{
    if s.len() > 0 && is_space(s.first()) {
        lemma_trim_front_len(s.drop_first());
    }
}

proof fn lemma_trim_back_len(s: Seq<char>)
    ensures
        trim_back(s).len() <= s.len(),
    decreases s.len(),
{
    if s.len() > 0 && is_space(s.last()) {
        lemma_trim_back_len(s.drop_last());
    }
}

proof fn lemma_trim_seq_len(s: Seq<char>)
    ensures
        trim_seq(s).len() <= s.len(),
{
    lemma_trim_front_len(s);
    lemma_trim_back_len(trim_front(s));
}

/// A parsed data line, carried as owned strings.
pub struct ParsedLine {
    pub key: String,
    pub old_name: Option<String>,
    pub new_name: Option<String>,
    pub new_email: Option<String>,
}

/// The view of a parsed line.
pub open spec fn parsed_line_view(p: ParsedLine) -> RuleLine {
    RuleLine {
        key: p.key@,
        old_name: opt_view(p.old_name),
        new_name: opt_view(p.new_name),
        new_email: opt_view(p.new_email),
    }
}

/// Parse one line of the file (see [`parse_rule_line`] for the grammar).
fn parse_line(s: &str) -> (r: Option<ParsedLine>)
    ensures
        match r {
            Option::Some(p) => parse_rule_line(s@) == Option::Some(parsed_line_view(p)),
            Option::None => parse_rule_line(s@) is None,
        },
{
    let n = s.unicode_len();
    if n > 0 && s.get_char(0) == '#' {
        return Option::None;
    }
    let lt1 = match find_char_from(s, '<', 0) {
        Option::Some(i) => i,
        Option::None => {
            return Option::None;
        },
    };
    let gt1 = match find_char_from(s, '>', lt1 + 1) {
        Option::Some(i) => i,
        Option::None => {
            return Option::None;
        },
    };
    let name1 = trimmed_range(s, 0, lt1);
    if !name1.as_str().is_empty() {
        proof {
            lemma_trim_seq_len(s@.subrange(0, lt1 as int));
        }
        if !is_space_char(s.get_char(lt1 - 1)) {
            return Option::None;
        }
    }
    let email1 = trimmed_range(s, lt1 + 1, gt1);
    if email1.as_str().is_empty() {
        return Option::None;
    }
    let second: Option<(usize, usize)> = match find_char_from(s, '<', gt1 + 1) {
        Option::Some(lt2) => match find_char_from(s, '>', lt2 + 1) {
            Option::Some(gt2) => Option::Some((lt2, gt2)),
            Option::None => Option::None,
        },
        Option::None => Option::None,
    };
    match second {
        Option::Some((lt2, gt2)) => {
            if !is_space_char(s.get_char(lt2 - 1)) {
                return Option::None;
            }
            let email2 = trimmed_range(s, lt2 + 1, gt2);
            if email2.as_str().is_empty() {
                return Option::None;
            }
            let oldn = trimmed_range(s, gt1 + 1, lt2);
            let p = ParsedLine {
                key: email2,
                old_name: if oldn.as_str().is_empty() {
                    Option::None
                } else {
                    Option::Some(oldn)
                },
                new_name: if name1.as_str().is_empty() {
                    Option::None
                } else {
                    Option::Some(name1)
                },
                new_email: Option::Some(email1),
            };
            Option::Some(p)
        },
        Option::None => {
            let p = ParsedLine {
                key: email1,
                old_name: Option::None,
                new_name: if name1.as_str().is_empty() {
                    Option::None
                } else {
                    Option::Some(name1)
                },
                new_email: Option::None,
            };
            Option::Some(p)
        },
    }
}

/// `o`, or `d` where `o` is unset.
pub open spec fn opt_or(o: Option<Seq<char>>, d: Seq<char>) -> Seq<char> {
    match o {
        Option::Some(s) => s,
        Option::None => d,
    }
}

/// The canonical display identity of `(n, e)` under the rule map: the
/// rule keyed by `e` is consulted, its name-specific entry for `n`
/// preferred over its default, raw fields filling anything left unset;
/// without a rule the raw identity is formatted as it came.
pub open spec fn spec_resolve(
    rules: Map<Seq<char>, AuthorView>,
    n: Seq<char>,
    e: Seq<char>,
) -> Seq<char> {
    if rules.dom().contains(e) {
        let rule = rules[e];
        if rule.namemap.dom().contains(n) {
            let c = rule.namemap[n];
            spec_format_identity(opt_or(c.name, n), opt_or(c.email, e))
        } else {
            spec_format_identity(opt_or(rule.name, n), opt_or(rule.email, e))
        }
    } else {
        spec_format_identity(n, e)
    }
}

/// One parsed line folded into the rule map: keyed by the old email; an
/// old name adds a name-specific entry, otherwise the rule's defaults are
/// replaced.
pub open spec fn apply_rule(
    m: Map<Seq<char>, AuthorView>,
    r: RuleLine,
) -> Map<Seq<char>, AuthorView> {
    let cur = if m.dom().contains(r.key) {
        m[r.key]
    } else {
        empty_rule()
    };
    let upd = match r.old_name {
        Option::Some(on) => AuthorView {
            namemap: cur.namemap.insert(
                on,
                AuthorView { name: r.new_name, email: r.new_email, namemap: Map::empty() },
            ),
            ..cur
        },
        Option::None => AuthorView { name: r.new_name, email: r.new_email, namemap: cur.namemap },
    };
    m.insert(r.key, upd)
}

/// One line folded into the rule map; unparseable lines change nothing.
pub open spec fn apply_line(
    m: Map<Seq<char>, AuthorView>,
    line: Seq<char>,
) -> Map<Seq<char>, AuthorView> {
    match parse_rule_line(line) {
        Option::None => m,
        Option::Some(r) => apply_rule(m, r),
    }
}

/// The rule map of a whole file, lines applied first to last.
pub open spec fn mailmap_of(lines: Seq<Seq<char>>) -> Map<Seq<char>, AuthorView>
    decreases lines.len(),
{
    if lines.len() == 0 {
        Map::empty()
    } else {
        apply_line(mailmap_of(lines.drop_last()), lines.last())
    }
}

/// The views of a sequence of lines.
pub open spec fn line_views(ls: Seq<String>) -> Seq<Seq<char>> {
    ls.map_values(|l: String| l@)
}

/// The parsed alias-mapping file: rules keyed by old email.
pub struct Mailmap {
    items: Vec<(String, Author)>,
}

impl View for Mailmap {
    type V = Map<Seq<char>, AuthorView>;

    closed spec fn view(&self) -> Map<Seq<char>, AuthorView> {
        author_map(self.items@)
    }
}

impl Mailmap {
    /// Internal consistency: distinct keys, well-formed rules.
    pub closed spec fn wf(&self) -> bool {
        distinct_author_keys(self.items@) && entries_wf(self.items@)
    }

    /// Parse the lines of a mailmap file. Comments and lines that do not
    /// fit the grammar are skipped, never fatal.
    pub fn new(lines: &Vec<String>) -> (m: Mailmap)
        ensures
            m.wf(),
            m@ == mailmap_of(line_views(lines@)),
    {
        let mut m = Mailmap { items: Vec::new() };
        proof {
            assert(line_views(lines@.take(0)) =~= Seq::<Seq<char>>::empty());
        }
        let n = lines.len();
        let mut li: usize = 0;
        while li < n
            invariant
                n == lines@.len(),
                li <= n,
                m.wf(),
                m@ == mailmap_of(line_views(lines@.take(li as int))),
            decreases n - li,
        {
            let line = &lines[li];
            match parse_line(line.as_str()) {
                Option::None => {},
                Option::Some(p) => {
                    m.apply_parsed(p);
                },
            }
            li += 1;
            proof {
                assert(line_views(lines@.take(li as int)).drop_last() =~= line_views(
                    lines@.take(li as int - 1),
                ));
                assert(line_views(lines@.take(li as int)).last() == lines@[li as int - 1]@);
            }
        }
        proof {
            assert(lines@.take(n as int) =~= lines@);
        }
        m
    }

    /// Fold one parsed rule into the map.
    fn apply_parsed(&mut self, p: ParsedLine)
        requires
            old(self).wf(),
        ensures
            final(self).wf(),
            final(self)@ == apply_rule(old(self)@, parsed_line_view(p)),
    {
        let ghost r = parsed_line_view(p);
        let n = self.items.len();
        let mut i: usize = 0;
        let mut found = false;
        while i < n && !found
            invariant
                *self == *old(self),
                old(self).wf(),
                n == self.items@.len(),
                i <= n,
                forall|j: int| 0 <= j < i ==> self.items@[j].0@ != p.key@,
                found ==> i < n && self.items@[i as int].0@ == p.key@,
            decreases n - i + (if found { 0int } else { 1int }),
        {
            if self.items[i].0 == p.key {
                found = true;
            } else {
                i += 1;
            }
        }
        if found {
            proof {
                lemma_author_map_index(self.items@, i as int);
                lemma_entries_wf_index(self.items@, i as int);
            }
            let (k, mut a) = self.items.remove(i);
            match p.old_name {
                Option::Some(on) => {
                    a.namemap_insert(on, Author::new(p.new_name, p.new_email));
                },
                Option::None => {
                    a.set_name(p.new_name);
                    a.set_email(p.new_email);
                },
            }
            proof {
                lemma_author_map_update(old(self).items@, i as int, (k, a));
                lemma_entries_wf_update(old(self).items@, i as int, (k, a));
            }
            self.items.insert(i, (k, a));
            proof {
                assert(self.items@ =~= old(self).items@.update(i as int, (k, a)));
                assert(forall|j: int|
                    0 <= j < self.items@.len() ==> self.items@[j].0@ == old(
                        self,
                    ).items@[j].0@);
                assert(distinct_author_keys(self.items@));
                assert(self@ == apply_rule(old(self)@, r)) by {
                    assert(author_view(a) =~= (match r.old_name {
                        Option::Some(on) => AuthorView {
                            namemap: old(self)@[r.key].namemap.insert(
                                on,
                                AuthorView {
                                    name: r.new_name,
                                    email: r.new_email,
                                    namemap: Map::empty(),
                                },
                            ),
                            ..old(self)@[r.key]
                        },
                        Option::None => AuthorView {
                            name: r.new_name,
                            email: r.new_email,
                            namemap: old(self)@[r.key].namemap,
                        },
                    }));
                }
            }
        } else {
            let mut a = Author::default();
            match p.old_name {
                Option::Some(on) => {
                    a.namemap_insert(on, Author::new(p.new_name, p.new_email));
                },
                Option::None => {
                    a.set_name(p.new_name);
                    a.set_email(p.new_email);
                },
            }
            proof {
                lemma_author_map_absent(self.items@, p.key@);
                lemma_author_map_push(self.items@, (p.key, a));
                lemma_entries_wf_push(self.items@, (p.key, a));
            }
            self.items.push((p.key, a));
            proof {
                assert(self.items@.drop_last() =~= old(self).items@);
                assert(distinct_author_keys(self.items@)) by {
                    assert(forall|q: int|
                        0 <= q < self.items@.len() - 1 ==> (#[trigger] self.items@[q]).0@
                            != self.items@[self.items@.len() - 1].0@);
                }
                assert(self@ == apply_rule(old(self)@, r)) by {
                    assert(author_view(a) =~= (match r.old_name {
                        Option::Some(on) => AuthorView {
                            namemap: Map::empty().insert(
                                on,
                                AuthorView {
                                    name: r.new_name,
                                    email: r.new_email,
                                    namemap: Map::empty(),
                                },
                            ),
                            ..empty_rule()
                        },
                        Option::None => AuthorView {
                            name: r.new_name,
                            email: r.new_email,
                            namemap: Map::empty(),
                        },
                    }));
                }
            }
        }
    }

    /// The canonical display identity of a raw `(name, email)` pair
    /// (see [`spec_resolve`]); never fails.
    pub fn map_user(&self, name: &String, email: &String) -> (r: String)
        requires
            self.wf(),
        ensures
            r@ == spec_resolve(self@, name@, email@),
    {
        let n = self.items.len();
        let mut i: usize = 0;
        let mut found = false;
        while i < n && !found
            invariant
                self.wf(),
                n == self.items@.len(),
                i <= n,
                forall|j: int| 0 <= j < i ==> self.items@[j].0@ != email@,
                found ==> i < n && self.items@[i as int].0@ == email@,
            decreases n - i + (if found { 0int } else { 1int }),
        {
            if self.items[i].0 == *email {
                found = true;
            } else {
                i += 1;
            }
        }
        if !found {
            proof {
                lemma_author_map_absent(self.items@, email@);
            }
            return format_identity(name.as_str(), email.as_str());
        }
        proof {
            lemma_author_map_index(self.items@, i as int);
            lemma_entries_wf_index(self.items@, i as int);
        }
        let rule = &self.items[i].1;
        let m = rule.namemap.len();
        let mut j: usize = 0;
        let mut jfound = false;
        while j < m && !jfound
            invariant
                author_wf(*rule),
                m == rule.namemap@.len(),
                j <= m,
                forall|q: int| 0 <= q < j ==> rule.namemap@[q].0@ != name@,
                jfound ==> j < m && rule.namemap@[j as int].0@ == name@,
            decreases m - j + (if jfound { 0int } else { 1int }),
        {
            if rule.namemap[j].0 == *name {
                jfound = true;
            } else {
                j += 1;
            }
        }
        if jfound {
            proof {
                lemma_author_map_index(rule.namemap@, j as int);
            }
            let chosen = &rule.namemap[j].1;
            let out_name: &str = match &chosen.name {
                Option::Some(s) => s.as_str(),
                Option::None => name.as_str(),
            };
            let out_email: &str = match &chosen.email {
                Option::Some(s) => s.as_str(),
                Option::None => email.as_str(),
            };
            format_identity(out_name, out_email)
        } else {
            proof {
                lemma_author_map_absent(rule.namemap@, name@);
            }
            let out_name: &str = match &rule.name {
                Option::Some(s) => s.as_str(),
                Option::None => name.as_str(),
            };
            let out_email: &str = match &rule.email {
                Option::Some(s) => s.as_str(),
                Option::None => email.as_str(),
            };
            format_identity(out_name, out_email)
        }
    }
}

} // verus!
