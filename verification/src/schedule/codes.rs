//! The meaning of the codes that the lists use: countries, languages and target areas.
use crate::text;
use vstd::prelude::*;

verus! {

/// A table of codes. A code keeps the first name that it was given.
#[derive(Debug)]
pub struct CodeTable {
    keys: Vec<String>,
    names: Vec<String>,
}

impl View for CodeTable {
    type V = Map<Seq<char>, Seq<char>>;

    closed spec fn view(&self) -> Map<Seq<char>, Seq<char>> {
        Map::new(
            |k: Seq<char>| exists|i: int| 0 <= i < self.keys@.len() && #[trigger] self.keys@[i]@ == k,
            |k: Seq<char>|
                self.names@[choose|i: int|
                    0 <= i < self.keys@.len() && #[trigger] self.keys@[i]@ == k]@,
        )
    }
}

impl CodeTable {
    /// There is a name for each code, and no code stands in the table twice.
    pub closed spec fn wf(&self) -> bool {
        &&& self.keys@.len() == self.names@.len()
        &&& forall|i: int, j: int|
            0 <= i < j < self.keys@.len() ==> #[trigger] self.keys@[i]@ != #[trigger] self.keys@[j]@
    }

    /// How many codes the table has.
    pub closed spec fn size(&self) -> nat {
        self.keys@.len()
    }

    /// An empty table.
    pub fn new() -> (r: CodeTable)
        ensures
            r.wf(),
            r@ == Map::<Seq<char>, Seq<char>>::empty(),
            r.size() == 0,
    {
        let r = CodeTable { keys: Vec::new(), names: Vec::new() };
        assert(r@ =~= Map::<Seq<char>, Seq<char>>::empty());
        r
    }

    /// Has the table no codes?
    pub fn is_empty(&self) -> (r: bool)
        requires
            self.wf(),
        ensures
            r == (self@ == Map::<Seq<char>, Seq<char>>::empty()),
            r == (self.size() == 0),
    {
        if self.keys.len() == 0 {
            assert(self@ =~= Map::<Seq<char>, Seq<char>>::empty());
            true
        } else {
            assert(self@.contains_key(self.keys@[0]@));
            false
        }
    }

    /// How many codes the table has.
    pub fn len(&self) -> (r: usize)
        ensures
            r == self.size(),
    {
        self.keys.len()
    }

    fn position(&self, code: &[char]) -> (r: usize)
        requires
            self.wf(),
        ensures
            r <= self.keys@.len(),
            r < self.keys@.len() ==> self.keys@[r as int]@ == code@ && self@.contains_key(code@)
                && self@[code@] == self.names@[r as int]@,
            r == self.keys@.len() ==> !self@.contains_key(code@),
    {
        let mut i: usize = 0;
        while i < self.keys.len()
            invariant
                i <= self.keys@.len(),
                self.wf(),
                forall|k: int| 0 <= k < i ==> #[trigger] self.keys@[k]@ != code@,
            decreases self.keys.len() - i,
        {
            if text::equals(code, self.keys[i].as_str()) {
                assert(self@.contains_key(code@));
                return i;
            }
            i = i + 1;
        }
        i
    }

    /// The name of a code.
    pub fn get(&self, code: &str) -> (r: Option<&str>)
        requires
            self.wf(),
        ensures
            r matches Some(name) ==> self@.contains_key(code@) && name@ == self@[code@],
            r is None ==> !self@.contains_key(code@),
    {
        let chars = text::to_chars(code);
        let i: usize = self.position(&chars);
        if i < self.keys.len() {
            Some(self.names[i].as_str())
        } else {
            None
        }
    }

    /// Gives a code a name, unless it has one.
    pub fn insert_new(&mut self, code: &[char], name: &[char])
        requires
            old(self).wf(),
        ensures
            final(self).wf(),
            final(self)@ == with_code(old(self)@, code@, name@),
    {
        let i: usize = self.position(code);
        if i == self.keys.len() {
            let ghost before = *self;
            self.keys.push(text::from_chars(code));
            self.names.push(text::from_chars(name));
            proof {
                let n = before.keys@.len() as int;
                assert(self.keys@[n]@ == code@);
                assert forall|k: int, l: int| 0 <= k < l < self.keys@.len() implies
                    #[trigger] self.keys@[k]@ != #[trigger] self.keys@[l]@ by {
                    assert(self.keys@[k] == before.keys@[k]);
                    if l < n {
                        assert(self.keys@[l] == before.keys@[l]);
                    } else {
                        assert(before@.contains_key(before.keys@[k]@));
                    }
                }
                assert forall|c: Seq<char>| #[trigger] self@.contains_key(c) implies self@[c]
                    == with_code(before@, code@, name@)[c] && with_code(
                    before@,
                    code@,
                    name@,
                ).contains_key(c) by {
                    let k = choose|k: int| 0 <= k < self.keys@.len() && #[trigger] self.keys@[k]@ == c;
                    if k < n {
                        assert(before.keys@[k]@ == c);
                        assert(before@.contains_key(c));
                        let j = choose|j: int|
                            0 <= j < before.keys@.len() && #[trigger] before.keys@[j]@ == c;
                        assert(self.keys@[j]@ == c);
                    }
                }
                assert forall|c: Seq<char>|
                    with_code(before@, code@, name@).contains_key(c) implies #[trigger] self@.contains_key(
                    c,
                ) by {
                    if c != code@ {
                        let k = choose|k: int|
                            0 <= k < before.keys@.len() && #[trigger] before.keys@[k]@ == c;
                        assert(self.keys@[k]@ == c);
                    }
                }
                assert(self@ =~= with_code(before@, code@, name@));
            }
        }
    }
}

/// A table in which a code has a name: the one it had, or else the given one.
pub open spec fn with_code(
    table: Map<Seq<char>, Seq<char>>,
    code: Seq<char>,
    name: Seq<char>,
) -> Map<Seq<char>, Seq<char>> {
    if table.contains_key(code) {
        table
    } else {
        table.insert(code, name)
    }
}

/// The part of the description that a line belongs to.
#[derive(Clone, Copy, PartialEq, Eq, Debug, Structural)]
pub enum Section {
    Other,
    Languages,
    Countries,
    Targets,
}

/// The section that a line is the heading of.
pub open spec fn heading(line: Seq<char>) -> Option<Section> {
    let t = text::trimmed(line);
    if text::begins_with(t, "I) Language codes"@) {
        Some(Section::Languages)
    } else if text::begins_with(t, "II) Country codes"@) {
        Some(Section::Countries)
    } else if text::begins_with(t, "III) Target-area codes"@) {
        Some(Section::Targets)
    } else if text::begins_with(t, "IV) Transmitter"@) {
        Some(Section::Other)
    } else {
        None
    }
}

/// The index of the first white space at or after `from`, or the length where there is none.
pub open spec fn first_white(s: Seq<char>, from: int) -> int
    decreases s.len() - from,
{
    if from >= s.len() {
        s.len() as int
    } else if text::is_white(s[from]) {
        from
    } else {
        first_white(s, from + 1)
    }
}

/// The index of the last " [" that starts before `end`, or -1 where there is none.
pub open spec fn last_bracket(s: Seq<char>, end: int) -> int
    decreases end,
{
    if end <= 0 {
        -1
    } else if end < s.len() && s[end - 1] == ' ' && s[end] == '[' {
        end - 1
    } else {
        last_bracket(s, end - 1)
    }
}

/// A text without the asterisks at its end, each of which stands behind a space.
pub open spec fn without_stars(s: Seq<char>) -> Seq<char>
    decreases s.len(),
{
    if s.len() >= 2 && s[s.len() - 2] == ' ' && s.last() == '*' {
        without_stars(s.take(s.len() - 2))
    } else {
        s
    }
}

/// A name without the dash that stands before the names of target areas.
pub open spec fn without_dash(s: Seq<char>) -> Seq<char> {
    if text::begins_with(s, "- "@) {
        text::trimmed(s.skip(2))
    } else {
        s
    }
}

/// A name without the ISO code in brackets that stands behind the names of languages.
pub open spec fn without_iso_code(s: Seq<char>) -> Seq<char> {
    let i = last_bracket(s, s.len() as int);
    if i >= 0 && s.last() == ']' {
        text::trimmed(s.take(i))
    } else {
        s
    }
}

/// The name that stands behind a code.
pub open spec fn code_name(s: Seq<char>) -> Seq<char> {
    text::trimmed(without_stars(without_iso_code(without_dash(text::trimmed(s)))))
}

/// The code and the name that a line gives: the line is indented, and white space divides the two.
pub open spec fn code_line(line: Seq<char>) -> Option<(Seq<char>, Seq<char>)> {
    let t = text::trimmed(line);
    let i = first_white(t, 0);
    if !text::begins_with(line, "   "@) || i >= t.len() || code_name(t.skip(i + 1)).len() == 0 {
        None
    } else {
        Some((t.take(i), code_name(t.skip(i + 1))))
    }
}

/// The three tables, and the section that the next line belongs to.
pub struct CodesState {
    pub section: Section,
    pub countries: Map<Seq<char>, Seq<char>>,
    pub languages: Map<Seq<char>, Seq<char>>,
    pub targets: Map<Seq<char>, Seq<char>>,
}

/// The state before the first line.
pub open spec fn no_codes() -> CodesState {
    CodesState {
        section: Section::Other,
        countries: Map::empty(),
        languages: Map::empty(),
        targets: Map::empty(),
    }
}

/// The state after a line.
pub open spec fn after_line(s: CodesState, line: Seq<char>) -> CodesState {
    match heading(line) {
        Some(section) => CodesState { section, ..s },
        None => match code_line(line) {
            None => s,
            Some((code, name)) => match s.section {
                Section::Other => s,
                Section::Languages => CodesState {
                    languages: with_code(s.languages, code, name),
                    ..s
                },
                Section::Countries => CodesState {
                    countries: with_code(s.countries, code, name),
                    ..s
                },
                Section::Targets => CodesState {
                    targets: with_code(s.targets, code, name),
                    ..s
                },
            },
        },
    }
}

/// The state after lines.
pub open spec fn after_lines(lines: Seq<Seq<char>>) -> CodesState
    decreases lines.len(),
{
    if lines.len() == 0 {
        no_codes()
    } else {
        after_line(after_lines(lines.drop_last()), lines.last())
    }
}

/// The codes of countries, languages and target areas.
#[derive(Debug)]
pub struct Codes {
    pub countries: CodeTable,
    pub languages: CodeTable,
    pub targets: CodeTable,
}

/// The index at which the short form of a language's name ends.
pub open spec fn short_end(s: Seq<char>, from: int) -> int
    decreases s.len() - from,
{
    if from >= s.len() {
        s.len() as int
    } else if s[from] == ':' || s[from] == '(' {
        from
    } else {
        short_end(s, from + 1)
    }
}

/// The bare name of a language, without countries and numbers of speakers.
pub open spec fn short_name(s: Seq<char>) -> Seq<char> {
    text::trimmed(s.take(short_end(s, 0)))
}

impl Default for Codes {
    fn default() -> (r: Codes)
        ensures
            r.wf(),
            r.countries@ == Map::<Seq<char>, Seq<char>>::empty(),
            r.languages@ == Map::<Seq<char>, Seq<char>>::empty(),
            r.targets@ == Map::<Seq<char>, Seq<char>>::empty(),
    {
        Codes { countries: CodeTable::new(), languages: CodeTable::new(), targets: CodeTable::new() }
    }
}

impl Codes {
    /// The three tables are in order.
    pub open spec fn wf(&self) -> bool {
        self.countries.wf() && self.languages.wf() && self.targets.wf()
    }

    /// The country of a code.
    pub fn country(&self, code: &str) -> (r: Option<&str>)
        requires
            self.wf(),
        ensures
            r matches Some(name) ==> self.countries@.contains_key(code@) && name@
                == self.countries@[code@],
            r is None ==> !self.countries@.contains_key(code@),
    {
        self.countries.get(code)
    }

    /// The language of a code.
    pub fn language(&self, code: &str) -> (r: Option<&str>)
        requires
            self.wf(),
        ensures
            r matches Some(name) ==> self.languages@.contains_key(code@) && name@
                == self.languages@[code@],
            r is None ==> !self.languages@.contains_key(code@),
    {
        self.languages.get(code)
    }

    /// The bare name of the language of a code.
    pub fn language_short(&self, code: &str) -> (r: Option<String>)
        requires
            self.wf(),
        ensures
            r matches Some(name) ==> self.languages@.contains_key(code@) && name@ == short_name(
                self.languages@[code@],
            ),
            r is None ==> !self.languages@.contains_key(code@),
    {
        match self.languages.get(code) {
            None => None,
            Some(full) => {
                let chars = text::to_chars(full);
                let mut i: usize = 0;
                while i < chars.len() && chars[i] != ':' && chars[i] != '('
                    invariant
                        i <= chars@.len(),
                        short_end(chars@, 0) == short_end(chars@, i as int),
                    decreases chars.len() - i,
                {
                    i = i + 1;
                }
                let head: &[char] = &chars[0..i];
                assert(head@ == chars@.take(short_end(chars@, 0)));
                Some(text::from_chars(text::trim(head)))
            },
        }
    }

    /// The target area of a code.
    pub fn target(&self, code: &str) -> (r: Option<&str>)
        requires
            self.wf(),
        ensures
            r matches Some(name) ==> self.targets@.contains_key(code@) && name@
                == self.targets@[code@],
            r is None ==> !self.targets@.contains_key(code@),
    {
        self.targets.get(code)
    }

    /// Reads the description of the lists. Sections are told by their headings; in them, an
    /// indented code has its meaning behind it.
    pub fn parse(readme: &str) -> (r: Codes)
        ensures
            r.wf(),
            ({
                let s = after_lines(text::lines_of(readme@));
                &&& r.countries@ == s.countries
                &&& r.languages@ == s.languages
                &&& r.targets@ == s.targets
            }),
    {
        let chars = text::to_chars(readme);
        let lines = text::lines(&chars);
        let ghost all = text::texts(lines@);
        let mut section = Section::Other;
        let mut codes = Codes::default();
        let mut i: usize = 0;
        assert(all.take(0) == Seq::<Seq<char>>::empty());
        while i < lines.len()
            invariant
                i <= lines@.len(),
                all == text::texts(lines@),
                codes.wf(),
                ({
                    let s = after_lines(all.take(i as int));
                    &&& codes.countries@ == s.countries
                    &&& codes.languages@ == s.languages
                    &&& codes.targets@ == s.targets
                    &&& section == s.section
                }),
            decreases lines.len() - i,
        {
            let line: &[char] = lines[i];
            assert(all[i as int] == line@);
            assert(all.take(i as int + 1).drop_last() == all.take(i as int));
            match read_heading(line) {
                Some(next) => {
                    section = next;
                },
                None => {
                    if let Some((code, name)) = read_code_line(line) {
                        match section {
                            Section::Other => {},
                            Section::Languages => {
                                codes.languages.insert_new(&code, &name);
                            },
                            Section::Countries => {
                                codes.countries.insert_new(&code, &name);
                            },
                            Section::Targets => {
                                codes.targets.insert_new(&code, &name);
                            },
                        }
                    }
                },
            }
            i = i + 1;
        }
        assert(all.take(i as int) == all);
        codes
    }
}

fn read_heading(line: &[char]) -> (r: Option<Section>)
    ensures
        r == heading(line@),
{
    let t: &[char] = text::trim(line);
    if text::starts_with(t, "I) Language codes") {
        Some(Section::Languages)
    } else if text::starts_with(t, "II) Country codes") {
        Some(Section::Countries)
    } else if text::starts_with(t, "III) Target-area codes") {
        Some(Section::Targets)
    } else if text::starts_with(t, "IV) Transmitter") {
        Some(Section::Other)
    } else {
        None
    }
}

fn read_code_name<'a>(rest: &'a [char]) -> (r: &'a [char])
    ensures
        r@ == code_name(rest@),
{
    proof {
        reveal_strlit("- ");
    }
    let mut name: &'a [char] = text::trim(rest);
    if text::starts_with(name, "- ") {
        let behind: &'a [char] = &name[2..name.len()];
        assert(behind@ == name@.skip(2));
        name = text::trim(behind);
    }
    assert(name@ == without_dash(text::trimmed(rest@)));
    let ghost dashless = name@;
    let mut i: usize = name.len();
    while i > 0 && !(i < name.len() && name[i - 1] == ' ' && name[i] == '[')
        invariant
            i <= name@.len(),
            name@ == dashless,
            last_bracket(dashless, dashless.len() as int) == last_bracket(dashless, i as int),
        decreases i,
    {
        i = i - 1;
    }
    if i > 0 && name[name.len() - 1] == ']' {
        let before: &'a [char] = &name[0..i - 1];
        assert(before@ == dashless.take(i - 1));
        name = text::trim(before);
    }
    assert(name@ == without_iso_code(dashless));
    let ghost bare = name@;
    let mut n: usize = name.len();
    assert(bare.take(n as int) == bare);
    while n >= 2 && name[n - 2] == ' ' && name[n - 1] == '*'
        invariant
            n <= name@.len(),
            name@ == bare,
            without_stars(bare) == without_stars(bare.take(n as int)),
        decreases n,
    {
        assert(bare.take(n as int).take(n - 2) == bare.take(n - 2));
        n = n - 2;
    }
    let last: &'a [char] = &name[0..n];
    assert(last@ == bare.take(n as int));
    text::trim(last)
}

fn read_code_line<'a>(line: &'a [char]) -> (r: Option<(&'a [char], &'a [char])>)
    ensures
        r matches Some((code, name)) ==> code_line(line@) == Some((code@, name@)),
        r is None ==> code_line(line@) is None,
{
    let t: &'a [char] = text::trim(line);
    if !text::starts_with(line, "   ") {
        return None;
    }
    let mut i: usize = 0;
    while i < t.len() && !text::is_whitespace(t[i])
        invariant
            i <= t@.len(),
            first_white(t@, 0) == first_white(t@, i as int),
        decreases t.len() - i,
    {
        i = i + 1;
    }
    if i >= t.len() {
        return None;
    }
    let code: &'a [char] = &t[0..i];
    let rest: &'a [char] = &t[i + 1..t.len()];
    assert(code@ == t@.take(i as int));
    assert(rest@ == t@.skip(i as int + 1));
    let name: &'a [char] = read_code_name(rest);
    if name.len() == 0 {
        None
    } else {
        Some((code, name))
    }
}

/// A code keeps the name that it was given first, whatever lines follow.
pub proof fn law_first_name_stays(lines: Seq<Seq<char>>, line: Seq<char>, code: Seq<char>)
    ensures
        ({
            let s = after_lines(lines);
            let t = after_lines(lines.push(line));
            &&& s.countries.contains_key(code) ==> t.countries.contains_key(code)
                && t.countries[code] == s.countries[code]
            &&& s.languages.contains_key(code) ==> t.languages.contains_key(code)
                && t.languages[code] == s.languages[code]
            &&& s.targets.contains_key(code) ==> t.targets.contains_key(code) && t.targets[code]
                == s.targets[code]
        }),
{
    assert(lines.push(line).drop_last() == lines);
}

/// Before the first heading, and behind the heading of the transmitter sites, lines that are no
/// headings give no codes.
pub proof fn law_other_sections_give_no_codes(s: CodesState, line: Seq<char>)
    requires
        s.section == Section::Other,
        heading(line) is None,
    ensures
        after_line(s, line) == s,
{
}

/// The first white space is where it is, with none before it.
proof fn lemma_first_white(s: Seq<char>, from: int, at: int)
    requires
        0 <= from <= at <= s.len(),
        forall|i: int| from <= i < at ==> !text::is_white(#[trigger] s[i]),
        at == s.len() || text::is_white(s[at]),
    ensures
        first_white(s, from) == at,
    decreases at - from,
{
    if from < at {
        assert(!text::is_white(s[from]));
        lemma_first_white(s, from + 1, at);
    }
}

/// A plain name stays as it is: it has no dash before it, no bracket and no asterisk at its end.
pub open spec fn is_plain(name: Seq<char>) -> bool {
    &&& name.len() > 0
    &&& !text::is_white(name[0])
    &&& !text::is_white(name.last())
    &&& name[0] != '-'
    &&& name.last() != ']'
    &&& name.last() != '*'
}

/// A name is left alone where there is nothing to take away.
proof fn lemma_plain_name(name: Seq<char>)
    requires
        is_plain(name),
    ensures
        text::trimmed(name) == name,
        code_name(name) == name,
{
    let none = Seq::<char>::empty();
    assert(none + name + none =~= name);
    text::law_trimming_takes_the_blanks_at_the_ends(none, name, none);
    reveal_strlit("- ");
    assert(!text::begins_with(name, "- "@)) by {
        if text::begins_with(name, "- "@) {
            assert(name.take(2)[0] == "- "@[0]);
        }
    }
}

/// A line gives the code that it begins with and the name that follows: it is indented, and white
/// space divides the two. The dash before a target area is no part of the name.
#[verifier::rlimit(40)]
pub proof fn law_code_and_name_are_read(code: Seq<char>, blank: Seq<char>, name: Seq<char>)
    requires
        code.len() > 0,
        forall|i: int| 0 <= i < code.len() ==> !text::is_white(#[trigger] code[i]),
        blank.len() > 0,
        forall|i: int| 0 <= i < blank.len() ==> text::is_white(#[trigger] blank[i]),
        is_plain(name),
    ensures
        code_line(seq![' ', ' ', ' '] + code + blank + name) == Some((code, name)),
        code_line(seq![' ', ' ', ' '] + code + blank + seq!['-', ' '] + name) == Some((code, name)),
        code_line(code + blank + name) is None || text::is_white(code[0]),
{
    let indent = seq![' ', ' ', ' '];
    let none = Seq::<char>::empty();
    let t = code + blank + name;
    let line = indent + code + blank + name;
    assert(line =~= indent + t + none);
    assert(t[0] == code[0] && t.last() == name.last());
    text::law_trimming_takes_the_blanks_at_the_ends(indent, t, none);
    lemma_split_at_blank(code, blank, name);
    lemma_plain_name(name);
    lemma_name_behind_blanks(blank.skip(1), name);
    reveal_strlit("   ");
    assert(line.take(3) =~= "   "@);
    let dashed = seq!['-', ' '] + name;
    let t2 = code + blank + dashed;
    let line2 = indent + code + blank + seq!['-', ' '] + name;
    assert(line2 =~= indent + t2 + none);
    assert(t2[0] == code[0] && t2.last() == name.last());
    text::law_trimming_takes_the_blanks_at_the_ends(indent, t2, none);
    lemma_split_at_blank(code, blank, dashed);
    assert(line2.take(3) =~= "   "@);
    assert(dashed.last() == name.last());
    text::law_trimming_takes_the_blanks_at_the_ends(blank.skip(1), dashed, none);
    assert(blank.skip(1) + dashed + none =~= blank.skip(1) + dashed);
    reveal_strlit("- ");
    assert(dashed.take(2) =~= "- "@);
    assert(dashed.skip(2) =~= name);
    assert(code_name(blank.skip(1) + dashed) == name);
    if text::begins_with(t, "   "@) {
        assert(t.take(3)[0] == "   "@[0]);
    }
}

proof fn lemma_split_at_blank(code: Seq<char>, blank: Seq<char>, rest: Seq<char>)
    requires
        forall|i: int| 0 <= i < code.len() ==> !text::is_white(#[trigger] code[i]),
        blank.len() > 0,
        forall|i: int| 0 <= i < blank.len() ==> text::is_white(#[trigger] blank[i]),
    ensures
        ({
            let t = code + blank + rest;
            let n = code.len() as int;
            &&& first_white(t, 0) == n
            &&& n < t.len()
            &&& t.take(n) == code
            &&& t.skip(n + 1) == blank.skip(1) + rest
        }),
{
    let t = code + blank + rest;
    let n = code.len() as int;
    assert forall|i: int| 0 <= i < n implies !text::is_white(#[trigger] t[i]) by {
        assert(t[i] == code[i]);
    }
    assert(t[n] == blank[0]);
    lemma_first_white(t, 0, n);
    assert(t.take(n) =~= code);
    assert(t.skip(n + 1) =~= blank.skip(1) + rest);
}

proof fn lemma_name_behind_blanks(blank: Seq<char>, name: Seq<char>)
    requires
        forall|i: int| 0 <= i < blank.len() ==> text::is_white(#[trigger] blank[i]),
        is_plain(name),
    ensures
        code_name(blank + name) == name,
{
    let none = Seq::<char>::empty();
    assert(blank + name + none =~= blank + name);
    text::law_trimming_takes_the_blanks_at_the_ends(blank, name, none);
    lemma_plain_name(name);
}

/// A code belongs to the section that it stands in, and the first name that it has there stays: the
/// two other tables do not change, and neither does any other code.
pub proof fn law_code_belongs_to_its_section(
    s: CodesState,
    line: Seq<char>,
    code: Seq<char>,
    name: Seq<char>,
)
    requires
        heading(line) is None,
        code_line(line) == Some((code, name)),
    ensures
        ({
            let t = after_line(s, line);
            &&& t.section == s.section
            &&& s.section == Section::Other ==> t == s
            &&& s.section == Section::Countries ==> {
                &&& (t.languages, t.targets) == (s.languages, s.targets)
                &&& t.countries.contains_key(code)
                &&& t.countries[code] == if s.countries.contains_key(code) {
                    s.countries[code]
                } else {
                    name
                }
                &&& forall|c: Seq<char>|
                    c != code ==> (#[trigger] t.countries.contains_key(c)
                        == s.countries.contains_key(c) && (s.countries.contains_key(c)
                        ==> t.countries[c] == s.countries[c]))
            }
            &&& s.section == Section::Languages ==> {
                &&& (t.countries, t.targets) == (s.countries, s.targets)
                &&& t.languages.contains_key(code)
                &&& t.languages[code] == if s.languages.contains_key(code) {
                    s.languages[code]
                } else {
                    name
                }
            }
            &&& s.section == Section::Targets ==> {
                &&& (t.countries, t.languages) == (s.countries, s.languages)
                &&& t.targets.contains_key(code)
                &&& t.targets[code] == if s.targets.contains_key(code) {
                    s.targets[code]
                } else {
                    name
                }
            }
        }),
{
}

/// The headings of the sections are those of the description, whatever stands behind them.
#[verifier::rlimit(40)]
pub proof fn law_headings_open_their_sections(rest: Seq<char>)
    requires
        rest.len() > 0,
        !text::is_white(rest.last()),
    ensures
        heading("I) Language codes"@ + rest) == Some(Section::Languages),
        heading("II) Country codes"@ + rest) == Some(Section::Countries),
        heading("III) Target-area codes"@ + rest) == Some(Section::Targets),
        heading("IV) Transmitter"@ + rest) == Some(Section::Other),
{
    reveal_strlit("I) Language codes");
    reveal_strlit("II) Country codes");
    reveal_strlit("III) Target-area codes");
    reveal_strlit("IV) Transmitter");
    lemma_heading("I) Language codes"@, rest);
    lemma_heading("II) Country codes"@, rest);
    lemma_heading("III) Target-area codes"@, rest);
    lemma_heading("IV) Transmitter"@, rest);
    let (a, b, c, d) = (
        "I) Language codes"@ + rest,
        "II) Country codes"@ + rest,
        "III) Target-area codes"@ + rest,
        "IV) Transmitter"@ + rest,
    );
    assert(b[1] == 'I' && c[1] == 'I' && d[1] == 'V' && c[2] == 'I');
    lemma_other_heading(b, "I) Language codes"@, 1);
    lemma_other_heading(c, "I) Language codes"@, 1);
    lemma_other_heading(d, "I) Language codes"@, 1);
    lemma_other_heading(c, "II) Country codes"@, 2);
    lemma_other_heading(d, "II) Country codes"@, 1);
    lemma_other_heading(d, "III) Target-area codes"@, 1);
}

proof fn lemma_heading(head: Seq<char>, rest: Seq<char>)
    requires
        head.len() > 0,
        !text::is_white(head[0]),
        rest.len() > 0,
        !text::is_white(rest.last()),
    ensures
        text::trimmed(head + rest) == head + rest,
        text::begins_with(head + rest, head),
{
    let none = Seq::<char>::empty();
    let s = head + rest;
    assert(none + s + none =~= s);
    assert(s.last() == rest.last());
    text::law_trimming_takes_the_blanks_at_the_ends(none, s, none);
    assert(s.take(head.len() as int) =~= head);
}

proof fn lemma_other_heading(s: Seq<char>, p: Seq<char>, i: int)
    requires
        0 <= i < p.len(),
        i < s.len(),
        s[i] != p[i],
    ensures
        !text::begins_with(s, p),
{
    if text::begins_with(s, p) {
        assert(s.take(p.len() as int)[i] == p[i]);
    }
}

/// The short name of a language ends before its first colon or bracket.
pub proof fn law_short_name_is_the_first_part(name: Seq<char>, rest: Seq<char>)
    requires
        name.len() > 0,
        !text::is_white(name[0]),
        !text::is_white(name.last()),
        forall|i: int| 0 <= i < name.len() ==> #[trigger] name[i] != ':' && name[i] != '(',
    ensures
        short_name(name) == name,
        short_name(name + seq![':'] + rest) == name,
        short_name(name + seq![' ', '('] + rest) == name,
{
    let none = Seq::<char>::empty();
    let n = name.len() as int;
    let blank = seq![' '];
    assert(none + name + none =~= name);
    assert(none + name + blank =~= name + blank);
    text::law_trimming_takes_the_blanks_at_the_ends(none, name, none);
    text::law_trimming_takes_the_blanks_at_the_ends(none, name, blank);
    lemma_end_of_short(name, 0, n);
    assert(name.take(n) =~= name);
    let a = name + seq![':'] + rest;
    assert forall|i: int| 0 <= i < n implies #[trigger] a[i] != ':' && a[i] != '(' by {
        assert(a[i] == name[i]);
    }
    lemma_end_of_short(a, 0, n);
    assert(a.take(n) =~= name);
    let b = name + seq![' ', '('] + rest;
    assert forall|i: int| 0 <= i < n + 1 implies #[trigger] b[i] != ':' && b[i] != '(' by {
        if i < n {
            assert(b[i] == name[i]);
        }
    }
    lemma_end_of_short(b, 0, n + 1);
    assert(b.take(n + 1) =~= name + blank);
}

proof fn lemma_end_of_short(s: Seq<char>, from: int, at: int)
    requires
        0 <= from <= at <= s.len(),
        forall|i: int| from <= i < at ==> #[trigger] s[i] != ':' && s[i] != '(',
        at == s.len() || s[at] == ':' || s[at] == '(',
    ensures
        short_end(s, from) == at,
    decreases at - from,
{
    if from < at {
        assert(s[from] != ':');
        lemma_end_of_short(s, from + 1, at);
    }
}

/// What stands behind a name is left out: the ISO code of a language in brackets, and an asterisk.
#[verifier::rlimit(40)]
pub proof fn law_additions_are_left_out(name: Seq<char>, iso: Seq<char>)
    requires
        is_plain(name),
        !iso.contains('['),
    ensures
        code_name(name + seq![' ', '['] + iso + seq![']']) == name,
        code_name(name + seq![' ', '*']) == name,
{
    let none = Seq::<char>::empty();
    lemma_plain_name(name);
    let s = name + seq![' ', '['] + iso + seq![']'];
    assert(none + s + none =~= s);
    assert(s.last() == ']' && s[0] == name[0]);
    text::law_trimming_takes_the_blanks_at_the_ends(none, s, none);
    reveal_strlit("- ");
    lemma_other_heading(s, "- "@, 0);
    assert forall|i: int| name.len() + 1 < i < s.len() implies #[trigger] s[i] != '[' by {
        if i < s.len() - 1 {
            assert(s[i] == iso[i - name.len() - 2]);
            assert(iso.contains(iso[i - name.len() - 2]));
        }
    }
    lemma_last_bracket(s, s.len() as int, name.len() as int);
    assert(s.take(name.len() as int) =~= name);
    let t = name + seq![' ', '*'];
    assert(none + t + none =~= t);
    assert(t.last() == '*' && t[0] == name[0]);
    text::law_trimming_takes_the_blanks_at_the_ends(none, t, none);
    lemma_other_heading(t, "- "@, 0);
    reveal_with_fuel(without_stars, 2);
    assert(t.take(t.len() - 2) =~= name);
}

proof fn lemma_last_bracket(s: Seq<char>, end: int, at: int)
    requires
        0 <= at,
        at + 1 < s.len(),
        at + 1 <= end <= s.len(),
        s[at] == ' ' && s[at + 1] == '[',
        forall|i: int| at + 1 < i < s.len() ==> #[trigger] s[i] != '[',
    ensures
        last_bracket(s, end) == at,
    decreases end - at,
{
    if end > at + 1 {
        if end < s.len() {
            assert(s[end] != '[');
        }
        lemma_last_bracket(s, end - 1, at);
    }
}

} // verus!
