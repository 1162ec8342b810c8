//! Map overview files: the `"key" "value"` text format that describes a
//! radar image's placement, its vertical sections and other settings.
use crate::text::chars_of;
use crate::text::contains;
use crate::text::contains_seq;
use crate::text::find;
use crate::text::is_white_space;
use crate::text::occurs_at;
use crate::text::first_occurrence;
use crate::text::lemma_comment_cut;
use crate::text::lemma_trimmed_ignores_padding;
use crate::text::lines;
use crate::text::lines_from;
use crate::text::strip_cr;
use crate::text::string_from_chars;
use crate::text::sub_chars;
use crate::text::trim_bounds;
use crate::text::trimmed;
use crate::text::unquoted;
use vstd::prelude::*;
use vstd::string::StringExecFns;

verus! {

/// Groups 1 and 2 of the first match of the regular expression `pattern`
/// in `text`, as the `regex` crate finds it; `None` when the pattern does
/// not compile, nothing matches, or either group takes no part in the match.
pub uninterp spec fn regex_captures_pair(pattern: Seq<char>, text: Seq<char>) -> Option<(Seq<char>, Seq<char>)>;

/// `regex::Regex::new(pattern)` and `Regex::captures(text)`: groups 1
/// and 2 of the first match.
#[verifier::external_body]
fn captures_pair(pattern: &str, text: &str) -> (r: Option<(String, String)>)
    ensures
        match r {
            Some((a, b)) => regex_captures_pair(pattern@, text@) == Some((a@, b@)),
            None => regex_captures_pair(pattern@, text@) is None,
        },
{
    let re = regex::Regex::new(pattern).ok()?;
    let caps = re.captures(text)?;
    Some((caps.get(1)?.as_str().to_string(), caps.get(2)?.as_str().to_string()))
}

/// The pattern of a `"key" "value"` line.
pub open spec fn kv_pattern() -> Seq<char> {
    "\"([^\"]+)\"\\s+\"([^\"]+)\""@
}

/// A vertical section of a map. The altitudes are the texts given for
/// them, read as numbers by whoever needs them.
#[derive(Debug, Clone)]
pub struct VerticalSection {
    pub name: String,
    pub altitude_max: Option<String>,
    pub altitude_min: Option<String>,
}

/// The value of a `VerticalSection`.
pub struct SectionModel {
    pub name: Seq<char>,
    pub altitude_max: Option<Seq<char>>,
    pub altitude_min: Option<Seq<char>>,
}

/// The characters of an optional string.
pub open spec fn opt_chars(o: Option<String>) -> Option<Seq<char>> {
    match o {
        Some(s) => Some(s@),
        None => None,
    }
}

impl View for VerticalSection {
    type V = SectionModel;

    open spec fn view(&self) -> SectionModel {
        SectionModel {
            name: self.name@,
            altitude_max: opt_chars(self.altitude_max),
            altitude_min: opt_chars(self.altitude_min),
        }
    }
}

/// A map overview. `pos_x`, `pos_y` and `scale` hold the texts given for
/// them; `settings` holds every other top-level key once, with its last
/// value, in the order the keys first appear.
#[derive(Debug, Clone)]
pub struct Overview {
    pub map_name: String,
    pub material: String,
    pub pos_x: Option<String>,
    pub pos_y: Option<String>,
    pub scale: Option<String>,
    pub vertical_sections: Vec<VerticalSection>,
    pub settings: Vec<(String, String)>,
}

/// The value of an `Overview`.
pub struct OverviewModel {
    pub map_name: Seq<char>,
    pub material: Seq<char>,
    pub pos_x: Option<Seq<char>>,
    pub pos_y: Option<Seq<char>>,
    pub scale: Option<Seq<char>>,
    pub vertical_sections: Seq<SectionModel>,
    pub settings: Seq<(Seq<char>, Seq<char>)>,
}

impl View for Overview {
    type V = OverviewModel;

    open spec fn view(&self) -> OverviewModel {
        OverviewModel {
            map_name: self.map_name@,
            material: self.material@,
            pos_x: opt_chars(self.pos_x),
            pos_y: opt_chars(self.pos_y),
            scale: opt_chars(self.scale),
            vertical_sections: self.vertical_sections@.map_values(|s: VerticalSection| s@),
            settings: self.settings@.map_values(|p: (String, String)| (p.0@, p.1@)),
        }
    }
}

/// The index of the first pair with key `k`, from `i` on.
pub open spec fn key_index(pairs: Seq<(Seq<char>, Seq<char>)>, k: Seq<char>, i: int) -> Option<int>
    decreases pairs.len() - i,
{
    if i < 0 || i >= pairs.len() {
        None
    } else if pairs[i].0 == k {
        Some(i)
    } else {
        key_index(pairs, k, i + 1)
    }
}

/// Sets key `k` to `v`: the pair with that key gets the new value, or a
/// new pair is added at the end.
pub open spec fn assoc_insert(pairs: Seq<(Seq<char>, Seq<char>)>, k: Seq<char>, v: Seq<char>) -> Seq<
    (Seq<char>, Seq<char>),
> {
    match key_index(pairs, k, 0) {
        Some(i) => pairs.update(i, (k, v)),
        None => pairs.push((k, v)),
    }
}

/// The state of an overview being read: the overview so far, the names
/// of the open blocks, and the last name seen.
pub struct ParserModel {
    pub overview: OverviewModel,
    pub stack: Seq<Seq<char>>,
    pub last_name: Seq<char>,
}

/// The sections after a key of section `name`: a new section is started
/// unless the last one has that name.
pub open spec fn with_section(secs: Seq<SectionModel>, name: Seq<char>) -> Seq<SectionModel> {
    if secs.len() == 0 || secs.last().name != name {
        secs.push(SectionModel { name, altitude_max: None, altitude_min: None })
    } else {
        secs
    }
}

/// The sections after key `k` with value `v` in the last section.
pub open spec fn set_altitude(secs: Seq<SectionModel>, k: Seq<char>, v: Seq<char>) -> Seq<SectionModel> {
    let last = secs.last();
    if k == "AltitudeMax"@ {
        secs.update(
            secs.len() - 1,
            SectionModel { name: last.name, altitude_max: Some(v), altitude_min: last.altitude_min },
        )
    } else if k == "AltitudeMin"@ {
        secs.update(
            secs.len() - 1,
            SectionModel { name: last.name, altitude_max: last.altitude_max, altitude_min: Some(v) },
        )
    } else {
        secs
    }
}

/// The overview after top-level key `k` with value `v`.
pub open spec fn set_top_level(ov: OverviewModel, k: Seq<char>, v: Seq<char>) -> OverviewModel {
    if k == "material"@ {
        OverviewModel { material: v, ..ov }
    } else if k == "pos_x"@ {
        OverviewModel { pos_x: Some(v), ..ov }
    } else if k == "pos_y"@ {
        OverviewModel { pos_y: Some(v), ..ov }
    } else if k == "scale"@ {
        OverviewModel { scale: Some(v), ..ov }
    } else {
        OverviewModel { settings: assoc_insert(ov.settings, k, v), ..ov }
    }
}

/// One non-empty cleaned line `l` read in state `st`; `kv` is what the
/// `"key" "value"` pattern captures in it. `{` opens a block named by the
/// last name (the first top-level block names the map), `}` closes one;
/// a key-value line sets a top-level key, or an altitude of a section of
/// the `verticalsections` block; any other line is a name.
pub open spec fn step(st: ParserModel, l: Seq<char>, kv: Option<(Seq<char>, Seq<char>)>) -> ParserModel {
    if l == "{"@ {
        let stack = st.stack.push(st.last_name);
        ParserModel {
            overview: if st.overview.map_name.len() == 0 && stack.len() == 1 {
                OverviewModel { map_name: st.last_name, ..st.overview }
            } else {
                st.overview
            },
            stack,
            last_name: st.last_name,
        }
    } else if l == "}"@ {
        ParserModel {
            stack: if st.stack.len() > 0 { st.stack.drop_last() } else { st.stack },
            ..st
        }
    } else {
        match kv {
            Some((k, v)) => if st.stack.len() == 1 {
                ParserModel { overview: set_top_level(st.overview, k, v), ..st }
            } else if st.stack.len() == 3 && st.stack[1] == "verticalsections"@ {
                ParserModel {
                    overview: OverviewModel {
                        vertical_sections: set_altitude(
                            with_section(st.overview.vertical_sections, st.stack[2]),
                            k,
                            v,
                        ),
                        ..st.overview
                    },
                    ..st
                }
            } else {
                st
            },
            None => ParserModel { last_name: unquoted(l), ..st },
        }
    }
}

/// A `"AltitudeMax"` or `"AltitudeMin"` line read inside section block
/// `name` of `verticalsections` sets that altitude of the section named
/// `name` at the end of the list, however many sections come before it: a
/// new section is started when the last one has another name (or there is
/// none), the earlier sections stay as they were, and the section's other
/// altitude is kept (none for a new section).
pub proof fn lemma_altitude_line_sets_last_section(
    st: ParserModel,
    l: Seq<char>,
    k: Seq<char>,
    v: Seq<char>,
)
    requires
        l != "{"@,
        l != "}"@,
        st.stack.len() == 3,
        st.stack[1] == "verticalsections"@,
        k == "AltitudeMax"@ || k == "AltitudeMin"@,
    ensures
        ({
            let before = st.overview.vertical_sections;
            let after = step(st, l, Some((k, v))).overview.vertical_sections;
            let fresh = before.len() == 0 || before.last().name != st.stack[2];
            &&& after.len() == (if fresh { before.len() + 1 } else { before.len() + 0 })
            &&& forall|i: int| 0 <= i < before.len() - (if fresh { 0int } else { 1int }) ==> after[i] == before[i]
            &&& after.last().name == st.stack[2]
            &&& k == "AltitudeMax"@ ==> after.last().altitude_max == Some(v) && after.last().altitude_min == (if fresh {
                None
            } else {
                before.last().altitude_min
            })
            &&& k == "AltitudeMin"@ ==> after.last().altitude_min == Some(v) && after.last().altitude_max == (if fresh {
                None
            } else {
                before.last().altitude_max
            })
        }),
{
    reveal_strlit("AltitudeMax");
    reveal_strlit("AltitudeMin");
    assert("AltitudeMax"@ != "AltitudeMin"@) by {
        assert("AltitudeMax"@[9] != "AltitudeMin"@[9]);
    }
}

/// Reads an overview file line by line.
pub struct OverviewParser {
    overview: Overview,
    stack: Vec<String>,
    last_name: String,
}

impl View for OverviewParser {
    type V = ParserModel;

    closed spec fn view(&self) -> ParserModel {
        ParserModel {
            overview: self.overview@,
            stack: self.stack@.map_values(|s: String| s@),
            last_name: self.last_name@,
        }
    }
}

/// The state before any line: an empty overview, no open block, no name.
pub open spec fn initial_model() -> ParserModel {
    ParserModel {
        overview: OverviewModel {
            map_name: Seq::empty(),
            material: Seq::empty(),
            pos_x: None,
            pos_y: None,
            scale: None,
            vertical_sections: Seq::empty(),
            settings: Seq::empty(),
        },
        stack: Seq::empty(),
        last_name: Seq::empty(),
    }
}

/// The pairs of a settings list, as values.
pub open spec fn pairs_of(v: Seq<(String, String)>) -> Seq<(Seq<char>, Seq<char>)> {
    v.map_values(|p: (String, String)| (p.0@, p.1@))
}

/// The sections of a list, as values.
pub open spec fn sections_of(v: Seq<VerticalSection>) -> Seq<SectionModel> {
    v.map_values(|s: VerticalSection| s@)
}

/// Sets key `k` to `v` in a settings list.
fn settings_insert(settings: &mut Vec<(String, String)>, k: String, v: String)
    ensures
        pairs_of(final(settings)@) == assoc_insert(pairs_of(old(settings)@), k@, v@),
{
    let ghost ps = pairs_of(settings@);
    let mut i: usize = 0;
    while i < settings.len()
        invariant
            i <= settings@.len(),
            ps == pairs_of(settings@),
            ps == pairs_of(old(settings)@),
            key_index(ps, k@, 0) == key_index(ps, k@, i as int),
        decreases settings.len() - i,
    {
        if settings[i].0 == k {
            let ghost kv = k@;
            let ghost vv = v@;
            settings.set(i, (k, v));
            proof {
                assert(ps[i as int].0 == kv);
                assert(key_index(ps, kv, i as int) == Some(i as int));
                assert(pairs_of(settings@) =~= ps.update(i as int, (kv, vv)));
            }
            return;
        }
        i = i + 1;
    }
    let ghost kv = k@;
    let ghost vv = v@;
    settings.push((k, v));
    assert(pairs_of(settings@) =~= ps.push((kv, vv)));
}

impl OverviewParser {
    /// A parser that has read nothing.
    pub fn new() -> (r: Self)
        ensures
            r@ == initial_model(),
    {
        let r = OverviewParser {
            overview: Overview {
                map_name: String::new(),
                material: String::new(),
                pos_x: None,
                pos_y: None,
                scale: None,
                vertical_sections: Vec::new(),
                settings: Vec::new(),
            },
            stack: Vec::new(),
            last_name: String::new(),
        };
        assert(r@.stack =~= Seq::<Seq<char>>::empty());
        assert(r@.overview.vertical_sections =~= Seq::<SectionModel>::empty());
        assert(r@.overview.settings =~= Seq::<(Seq<char>, Seq<char>)>::empty());
        r
    }

    /// Reads one non-empty cleaned line, given what the `"key" "value"`
    /// pattern captures in it.
    pub fn feed_line(&mut self, line: &str, kv: Option<(String, String)>)
        ensures
            final(self)@ == step(
                old(self)@,
                line@,
                match kv {
                    Some((k, v)) => Some((k@, v@)),
                    None => None,
                },
            ),
    {
        let l = String::from_str(line);
        if l == String::from_str("{") {
            let ghost old_stack = self@.stack;
            self.stack.push(self.last_name.clone());
            assert(self@.stack =~= old_stack.push(self.last_name@));
            if self.overview.map_name.as_str().is_empty() && self.stack.len() == 1 {
                self.overview.map_name = self.last_name.clone();
            }
            return;
        }
        if l == String::from_str("}") {
            let ghost old_stack = self@.stack;
            if self.stack.len() > 0 {
                self.stack.pop();
                assert(self@.stack =~= old_stack.drop_last());
            }
            return;
        }
        match kv {
            Some((k, v)) => {
                if self.stack.len() == 1 {
                    if k == String::from_str("material") {
                        self.overview.material = v;
                    } else if k == String::from_str("pos_x") {
                        self.overview.pos_x = Some(v);
                    } else if k == String::from_str("pos_y") {
                        self.overview.pos_y = Some(v);
                    } else if k == String::from_str("scale") {
                        self.overview.scale = Some(v);
                    } else {
                        settings_insert(&mut self.overview.settings, k, v);
                    }
                } else if self.stack.len() == 3 && self.stack[1] == String::from_str("verticalsections") {
                    let ghost secs0 = sections_of(self.overview.vertical_sections@);
                    let name = self.stack[2].clone();
                    let n = self.overview.vertical_sections.len();
                    if n == 0 || self.overview.vertical_sections[n - 1].name != name {
                        self.overview.vertical_sections.push(
                            VerticalSection { name, altitude_max: None, altitude_min: None },
                        );
                    }
                    let ghost secs1 = sections_of(self.overview.vertical_sections@);
                    assert(secs1 =~= with_section(secs0, self@.stack[2]));
                    let mut last = self.overview.vertical_sections.pop().unwrap();
                    if k == String::from_str("AltitudeMax") {
                        last.altitude_max = Some(v);
                    } else if k == String::from_str("AltitudeMin") {
                        last.altitude_min = Some(v);
                    }
                    self.overview.vertical_sections.push(last);
                    assert(sections_of(self.overview.vertical_sections@) =~= set_altitude(secs1, k@, v@));
                }
            },
            None => {
                let cs = chars_of(line);
                let (a, b) = trim_bounds(cs.as_slice(), true);
                let name = sub_chars(cs.as_slice(), a, b);
                self.last_name = string_from_chars(name.as_slice());
            },
        }
    }
}

/// A raw line without surrounding white space and without any `//`
/// comment (and the white space before it).
pub open spec fn clean_line(raw: Seq<char>) -> Seq<char> {
    let t = trimmed(raw);
    match first_occurrence(t, "//"@, 0) {
        Some(p) => trimmed(t.take(p)),
        None => t,
    }
}

/// The state after the raw line `raw`: blank lines are skipped, others
/// are cleaned and read with what the `"key" "value"` pattern captures.
pub open spec fn read_line(st: ParserModel, raw: Seq<char>) -> ParserModel {
    let l = clean_line(raw);
    if l.len() == 0 {
        st
    } else {
        step(st, l, regex_captures_pair(kv_pattern(), l))
    }
}

/// The state after reading the lines `ls` in order from `st`.
pub open spec fn read_lines(st: ParserModel, ls: Seq<Seq<char>>) -> ParserModel
    decreases ls.len(),
{
    if ls.len() == 0 {
        st
    } else {
        read_lines(read_line(st, ls[0]), ls.skip(1))
    }
}

/// The overview an overview file describes, or `None` when it names no
/// map (no top-level block is opened after a name).
pub open spec fn spec_parse_overview(content: Seq<char>) -> Option<OverviewModel> {
    let m = read_lines(initial_model(), lines(content));
    if m.overview.map_name.len() == 0 {
        None
    } else {
        Some(m.overview)
    }
}

/// The lines that count in an overview file: each raw line cleaned of
/// surrounding white space and of its `//` comment, blank ones left out.
pub open spec fn significant_lines(ls: Seq<Seq<char>>) -> Seq<Seq<char>>
    decreases ls.len(),
{
    if ls.len() == 0 {
        Seq::empty()
    } else if clean_line(ls[0]).len() == 0 {
        significant_lines(ls.skip(1))
    } else {
        seq![clean_line(ls[0])] + significant_lines(ls.skip(1))
    }
}

/// Indenting a line, or adding white space after it, leaves its cleaned
/// form as it was; a line of white space alone is blank, and so does not
/// count.
pub proof fn lemma_clean_line_ignores_padding(pad1: Seq<char>, l: Seq<char>, pad2: Seq<char>)
    requires
        forall|i: int| 0 <= i < pad1.len() ==> is_white_space(#[trigger] pad1[i]),
        forall|i: int| 0 <= i < pad2.len() ==> is_white_space(#[trigger] pad2[i]),
    ensures
        clean_line(pad1 + l + pad2) == clean_line(l),
        (forall|i: int| 0 <= i < l.len() ==> is_white_space(#[trigger] l[i])) ==> clean_line(l).len() == 0,
{
    lemma_trimmed_ignores_padding(pad1, l, pad2);
    if forall|i: int| 0 <= i < l.len() ==> is_white_space(#[trigger] l[i]) {
        reveal_strlit("//");
        let t = trimmed(l);
        assert(t.len() == 0);
        assert(!occurs_at(t, 0, "//"@));
        assert(first_occurrence(t, "//"@, 1) is None);
    }
}

/// A `//` comment added after a line leaves its cleaned form as it was,
/// when the line holds no `//` of its own and does not end in `/`.
pub proof fn lemma_clean_line_ignores_comment(m: Seq<char>, text: Seq<char>)
    requires
        forall|k: int| !occurs_at(m.push('/'), k, "//"@),
    ensures
        clean_line(m + "//"@ + text) == clean_line(m),
{
    reveal_strlit("//");
    assert("//"@ =~= seq!['/', '/']);
    lemma_comment_cut(m, text);
}

/// The state after reading the cleaned, non-blank lines `cs` in order.
pub open spec fn read_significant(st: ParserModel, cs: Seq<Seq<char>>) -> ParserModel
    decreases cs.len(),
{
    if cs.len() == 0 {
        st
    } else {
        read_significant(step(st, cs[0], regex_captures_pair(kv_pattern(), cs[0])), cs.skip(1))
    }
}

proof fn lemma_read_lines_significant(st: ParserModel, ls: Seq<Seq<char>>)
    ensures
        read_lines(st, ls) == read_significant(st, significant_lines(ls)),
    decreases ls.len(),
{
    if ls.len() > 0 {
        lemma_read_lines_significant(read_line(st, ls[0]), ls.skip(1));
        let l = clean_line(ls[0]);
        if l.len() > 0 {
            let cs = seq![l] + significant_lines(ls.skip(1));
            assert(cs[0] == l);
            assert(cs.skip(1) =~= significant_lines(ls.skip(1)));
        }
    }
}

/// Only the cleaned, non-blank lines of an overview file count: two files
/// whose lines agree once indentation, trailing white space, `//`
/// comments and blank lines are dropped parse to the same overview.
pub proof fn lemma_parse_ignores_layout(c1: Seq<char>, c2: Seq<char>)
    requires
        significant_lines(lines(c1)) == significant_lines(lines(c2)),
    ensures
        spec_parse_overview(c1) == spec_parse_overview(c2),
{
    lemma_read_lines_significant(initial_model(), lines(c1));
    lemma_read_lines_significant(initial_model(), lines(c2));
}

/// The cleaned form of a raw line.
fn clean(raw: &[char]) -> (r: Vec<char>)
    ensures
        r@ == clean_line(raw@),
{
    let (a, b) = trim_bounds(raw, false);
    let t = sub_chars(raw, a, b);
    let slashes = chars_of("//");
    proof {
        reveal_strlit("//");
    }
    match find(t.as_slice(), slashes.as_slice()) {
        Some(p) => {
            let head = sub_chars(t.as_slice(), 0, p);
            assert(head@ =~= t@.take(p as int));
            let (c, d) = trim_bounds(head.as_slice(), false);
            sub_chars(head.as_slice(), c, d)
        },
        None => t,
    }
}

impl OverviewParser {
    /// Reads one raw line.
    pub fn read_line(&mut self, raw: &[char])
        ensures
            final(self)@ == read_line(old(self)@, raw@),
    {
        let l = clean(raw);
        if l.len() == 0 {
            return;
        }
        let line = string_from_chars(l.as_slice());
        let open = String::from_str("{");
        let close = String::from_str("}");
        if line == open || line == close {
            self.feed_line(line.as_str(), None);
        } else {
            let kv = captures_pair("\"([^\"]+)\"\\s+\"([^\"]+)\"", line.as_str());
            self.feed_line(line.as_str(), kv);
        }
    }

    /// The overview read so far, unless no map has been named.
    pub fn finish(self) -> (r: Option<Overview>)
        ensures
            self@.overview.map_name.len() == 0 ==> r is None,
            self@.overview.map_name.len() != 0 ==> (r matches Some(ov) && ov@ == self@.overview),
    {
        if self.overview.map_name.as_str().is_empty() {
            None
        } else {
            Some(self.overview)
        }
    }
}

impl Overview {
    /// Parses an overview file.
    pub fn parse(content: &str) -> (r: Option<Overview>)
        ensures
            match r {
                Some(ov) => spec_parse_overview(content@) == Some(ov@),
                None => spec_parse_overview(content@) is None,
            },
    {
        let cs = chars_of(content);
        let mut parser = OverviewParser::new();
        let mut cur: Vec<char> = Vec::new();
        let ghost target = read_lines(initial_model(), lines(content@));
        let mut i: usize = 0;
        assert(cs@.skip(0) =~= cs@);
        assert(cur@ =~= Seq::<char>::empty());
        while i < cs.len()
            invariant
                i <= cs@.len(),
                cs@ == content@,
                target == read_lines(initial_model(), lines(content@)),
                target == read_lines(parser@, lines_from(cs@.skip(i as int), cur@)),
            decreases cs.len() - i,
        {
            let c = cs[i];
            let ghost rest = cs@.skip(i as int);
            assert(rest.skip(1) =~= cs@.skip(i + 1));
            if c == '\n' {
                let ghost whole = cur@;
                if cur.len() > 0 && cur[cur.len() - 1] == '\r' {
                    cur.pop();
                }
                assert(cur@ =~= strip_cr(whole));
                let ghost st = parser@;
                parser.read_line(cur.as_slice());
                proof {
                    let tail = lines_from(cs@.skip(i + 1), Seq::empty());
                    let ls = seq![strip_cr(whole)] + tail;
                    assert(ls[0] == strip_cr(whole));
                    assert(ls.skip(1) =~= tail);
                }
                cur = Vec::new();
                assert(cur@ =~= Seq::<char>::empty());
            } else {
                cur.push(c);
            }
            i = i + 1;
        }
        assert(cs@.skip(i as int) =~= Seq::<char>::empty());
        assert(lines_from(cs@.skip(i as int), cur@) == lines_from(Seq::<char>::empty(), cur@));
        let ghost st = parser@;
        if cur.len() > 0 {
            parser.read_line(cur.as_slice());
            proof {
                let ls = seq![cur@];
                assert(lines_from(Seq::<char>::empty(), cur@) == ls);
                assert(ls[0] == cur@);
                assert(ls.skip(1) =~= Seq::<Seq<char>>::empty());
                assert(read_lines(parser@, ls.skip(1)) == parser@);
                assert(read_lines(st, ls) == read_lines(read_line(st, cur@), ls.skip(1)));
            }
        } else {
            assert(lines_from(Seq::<char>::empty(), cur@) =~= Seq::<Seq<char>>::empty());
        }
        assert(parser@ == target);
        parser.finish()
    }
}

/// Whether no key occurs twice in a settings list.
pub open spec fn keys_distinct(pairs: Seq<(Seq<char>, Seq<char>)>) -> bool {
    forall|a: int, b: int| 0 <= a < b < pairs.len() ==> pairs[a].0 != pairs[b].0
}

/// The map from keys to values that a settings list stands for.
pub open spec fn settings_map(pairs: Seq<(Seq<char>, Seq<char>)>) -> Map<Seq<char>, Seq<char>>
    decreases pairs.len(),
{
    if pairs.len() == 0 {
        Map::empty()
    } else {
        settings_map(pairs.drop_last()).insert(pairs.last().0, pairs.last().1)
    }
}

proof fn lemma_key_index(pairs: Seq<(Seq<char>, Seq<char>)>, k: Seq<char>, i: int)
    requires
        0 <= i,
    ensures
        key_index(pairs, k, i) matches Some(j) ==> i <= j < pairs.len() && pairs[j].0 == k,
        key_index(pairs, k, i) is None ==> forall|j: int| i <= j < pairs.len() ==> pairs[j].0 != k,
    decreases pairs.len() - i,
{
    if i < pairs.len() && pairs[i].0 != k {
        lemma_key_index(pairs, k, i + 1);
    }
}

proof fn lemma_settings_map_update(pairs: Seq<(Seq<char>, Seq<char>)>, i: int, k: Seq<char>, v: Seq<char>)
    requires
        keys_distinct(pairs),
        0 <= i < pairs.len(),
        pairs[i].0 == k,
    ensures
        settings_map(pairs.update(i, (k, v))) == settings_map(pairs).insert(k, v),
    decreases pairs.len(),
{
    let u = pairs.update(i, (k, v));
    let d = pairs.drop_last();
    if i == pairs.len() - 1 {
        assert(u.drop_last() =~= d);
        assert(settings_map(d).insert(k, pairs.last().1).insert(k, v) =~= settings_map(d).insert(k, v));
    } else {
        assert(u.drop_last() =~= d.update(i, (k, v)));
        lemma_settings_map_update(d, i, k, v);
        assert(pairs.last().0 != k);
        assert(settings_map(d).insert(k, v).insert(pairs.last().0, pairs.last().1) =~= settings_map(d).insert(
            pairs.last().0,
            pairs.last().1,
        ).insert(k, v));
    }
}

/// Setting a key in a settings list acts on the map it stands for as an
/// insert, and keeps every key once.
pub proof fn lemma_assoc_insert_is_map_insert(pairs: Seq<(Seq<char>, Seq<char>)>, k: Seq<char>, v: Seq<char>)
    requires
        keys_distinct(pairs),
    ensures
        keys_distinct(assoc_insert(pairs, k, v)),
        settings_map(assoc_insert(pairs, k, v)) == settings_map(pairs).insert(k, v),
{
    lemma_key_index(pairs, k, 0);
    match key_index(pairs, k, 0) {
        Some(i) => {
            lemma_settings_map_update(pairs, i, k, v);
            let u = pairs.update(i, (k, v));
            assert forall|a: int, b: int| 0 <= a < b < u.len() implies u[a].0 != u[b].0 by {
                assert(u[a].0 == pairs[a].0 && u[b].0 == pairs[b].0);
            }
        },
        None => {
            let u = pairs.push((k, v));
            assert(u.drop_last() =~= pairs);
            assert forall|a: int, b: int| 0 <= a < b < u.len() implies u[a].0 != u[b].0 by {
                if b == pairs.len() {
                    assert(u[a].0 == pairs[a].0);
                } else {
                    assert(u[a] == pairs[a] && u[b] == pairs[b]);
                }
            }
        },
    }
}

proof fn lemma_step_keeps_keys_distinct(st: ParserModel, l: Seq<char>, kv: Option<(Seq<char>, Seq<char>)>)
    requires
        keys_distinct(st.overview.settings),
    ensures
        keys_distinct(step(st, l, kv).overview.settings),
{
    match kv {
        Some((k, v)) => {
            lemma_assoc_insert_is_map_insert(st.overview.settings, k, v);
        },
        None => {},
    }
}

proof fn lemma_read_lines_keeps_keys_distinct(st: ParserModel, ls: Seq<Seq<char>>)
    requires
        keys_distinct(st.overview.settings),
    ensures
        keys_distinct(read_lines(st, ls).overview.settings),
    decreases ls.len(),
{
    if ls.len() > 0 {
        let l = clean_line(ls[0]);
        if l.len() > 0 {
            lemma_step_keeps_keys_distinct(st, l, regex_captures_pair(kv_pattern(), l));
        }
        lemma_read_lines_keeps_keys_distinct(read_line(st, ls[0]), ls.skip(1));
    }
}

/// A parsed overview lists every setting key once, as the map of the
/// overview's settings does.
pub proof fn lemma_parsed_settings_distinct(content: Seq<char>)
    ensures
        spec_parse_overview(content) matches Some(ov) ==> keys_distinct(ov.settings),
{
    lemma_read_lines_keeps_keys_distinct(initial_model(), lines(content));
}

/// Where the radar dumper finds its inputs and puts its outputs.
#[derive(Debug, Clone)]
pub struct Config {
    pub vpk_path: String,
    pub vrf_cli_path: String,
    pub assets_dir: String,
}

impl Default for Config {
    /// The paths of a default Steam installation on Windows.
    fn default() -> (r: Self)
        ensures
            r.vpk_path@ == "C:\\Program Files (x86)\\Steam\\steamapps\\common\\Counter-Strike Global Offensive\\game\\csgo\\pak01_dir.vpk"@,
            r.vrf_cli_path@ == ".\\.vrf\\Source2Viewer-CLI.exe"@,
            r.assets_dir@ == ".\\.assets"@,
    {
        Config {
            vpk_path: String::from_str(
                "C:\\Program Files (x86)\\Steam\\steamapps\\common\\Counter-Strike Global Offensive\\game\\csgo\\pak01_dir.vpk",
            ),
            vrf_cli_path: String::from_str(".\\.vrf\\Source2Viewer-CLI.exe"),
            assets_dir: String::from_str(".\\.assets"),
        }
    }
}

/// `text` with the first match of the regular expression `pattern`
/// replaced by `replacement` (with `$` group references expanded), as the
/// `regex` crate does it; `None` when the pattern does not compile.
pub uninterp spec fn regex_replace_first(pattern: Seq<char>, text: Seq<char>, replacement: Seq<char>) -> Option<Seq<char>>;

/// `regex::Regex::new(pattern)` and `Regex::replace(text, replacement)`.
#[verifier::external_body]
fn replace_first(pattern: &str, text: &str, replacement: &str) -> (r: Option<String>)
    ensures
        match r {
            Some(s) => regex_replace_first(pattern@, text@, replacement@) == Some(s@),
            None => regex_replace_first(pattern@, text@, replacement@) is None,
        },
{
    let re = regex::Regex::new(pattern).ok()?;
    Some(re.replace(text, replacement).into_owned())
}

/// The file name under which a radar image with file stem `stem` is
/// saved: the stem with everything from `_radar` on replaced by `_radar`,
/// then `.png`; `None` for images that are not radars (no `_radar` in the
/// stem).
pub open spec fn spec_radar_output_name(stem: Seq<char>) -> Option<Seq<char>> {
    if !contains_seq(stem, "_radar"@) {
        None
    } else {
        match regex_replace_first("_radar.*$"@, stem, "_radar"@) {
            Some(n) => Some(n + ".png"@),
            None => None,
        }
    }
}

/// The file name under which a radar image with file stem `stem` is saved.
pub fn radar_output_name(stem: &str) -> (r: Option<String>)
    ensures
        match r {
            Some(n) => spec_radar_output_name(stem@) == Some(n@),
            None => spec_radar_output_name(stem@) is None,
        },
{
    let cs = chars_of(stem);
    let marker = chars_of("_radar");
    if !contains(cs.as_slice(), marker.as_slice()) {
        return None;
    }
    match replace_first("_radar.*$", stem, "_radar") {
        Some(n) => Some(png_file_name(n)),
        None => None,
    }
}

/// The name of the image file saved under the name `base`: `base` then
/// `.png`.
pub fn png_file_name(base: String) -> (r: String)
    ensures
        r@ == base@ + ".png"@,
{
    let mut n = base;
    n.append(".png");
    n
}

/// Whether an extension names an image that may hold a radar.
pub fn is_image_extension(ext: &str) -> (r: bool)
    ensures
        r == (ext@ == "png"@ || ext@ == "tga"@),
{
    let e = String::from_str(ext);
    e == String::from_str("png") || e == String::from_str("tga")
}

/// Whether an extracted file must be written: when no file is there yet,
/// or when its bytes differ from the new ones.
pub fn needs_write(existing: Option<&[u8]>, data: &[u8]) -> (r: bool)
    ensures
        r == match existing {
            Some(old) => old@ != data@,
            None => true,
        },
{
    match existing {
        None => true,
        Some(old) => {
            if old.len() != data.len() {
                return true;
            }
            let mut i: usize = 0;
            while i < data.len()
                invariant
                    i <= data@.len(),
                    old@.len() == data@.len(),
                    existing == Some(old),
                    forall|k: int| 0 <= k < i ==> old@[k] == data@[k],
                decreases data.len() - i,
            {
                if old[i] != data[i] {
                    assert(old@[i as int] != data@[i as int]);
                    return true;
                }
                i = i + 1;
            }
            assert(old@ =~= data@);
            false
        },
    }
}

} // verus!
