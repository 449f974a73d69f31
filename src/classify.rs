//! Dialect classification of a text buffer or of a single line.

use vstd::prelude::*;
use crate::text::{
    contains_char, contains_pair, has_pair, lines, lines_of, starts, starts_with_char,
    to_chars, trim, trim_chars,
};

verus! {

/// The dialects that a buffer or a segment can be in.
#[derive(Clone, Copy, Debug, PartialEq, Eq, Structural)]
pub enum Kind {
    Json,
    Csv,
    Xml,
    Yaml,
    Properties,
    Text,
}

/// The name under which a dialect is reported.
pub open spec fn label_of(k: Kind) -> Seq<char> {
    match k {
        Kind::Json => seq!['j', 's', 'o', 'n'],
        Kind::Csv => seq!['c', 's', 'v'],
        Kind::Xml => seq!['x', 'm', 'l'],
        Kind::Yaml => seq!['y', 'a', 'm', 'l'],
        Kind::Properties => seq!['p', 'r', 'o', 'p', 'e', 'r', 't', 'i', 'e', 's'],
        Kind::Text => seq!['t', 'e', 'x', 't'],
    }
}

impl Kind {
    /// The dialect's name as a string.
    pub fn label(&self) -> (r: String)
        ensures
            r@ == label_of(*self),
    {
        match self {
            Kind::Json => {
                let r = "json".to_string();
                proof { reveal_strlit("json"); }
                r
            },
            Kind::Csv => {
                let r = "csv".to_string();
                proof { reveal_strlit("csv"); }
                r
            },
            Kind::Xml => {
                let r = "xml".to_string();
                proof { reveal_strlit("xml"); }
                r
            },
            Kind::Yaml => {
                let r = "yaml".to_string();
                proof { reveal_strlit("yaml"); }
                r
            },
            Kind::Properties => {
                let r = "properties".to_string();
                proof { reveal_strlit("properties"); }
                r
            },
            Kind::Text => {
                let r = "text".to_string();
                proof { reveal_strlit("text"); }
                r
            },
        }
    }
}

/// `c` equals the lower-case ASCII letter or other character `w`, ignoring
/// the case of ASCII letters.
pub open spec fn char_eq_ci(c: char, w: char) -> bool {
    c == w || ('A' <= c && c <= 'Z' && c as u32 + 32 == w as u32)
}

/// `e` spells the lower-case word `w`, ignoring case.
pub open spec fn word_eq_ci(e: Seq<char>, w: Seq<char>) -> bool {
    e.len() == w.len() && forall|i: int| 0 <= i < e.len() ==> char_eq_ci(#[trigger] e[i], w[i])
}

fn same_word_ci(e: &[char], w: &[char]) -> (r: bool)
    ensures
        r == word_eq_ci(e@, w@),
{
    if e.len() != w.len() {
        return false;
    }
    let mut i: usize = 0;
    while i < e.len()
        invariant
            e@.len() == w@.len(),
            i <= e@.len(),
            forall|k: int| 0 <= k < i ==> char_eq_ci(#[trigger] e@[k], w@[k]),
        decreases e@.len() - i,
    {
        let c = e[i];
        let d = w[i];
        if !(c == d || ('A' <= c && c <= 'Z' && (c as u32) + 32 == (d as u32))) {
            return false;
        }
        i = i + 1;
    }
    true
}

/// The dialect that a file extension names, if it is a known one.
pub open spec fn ext_kind(e: Seq<char>) -> Option<Kind> {
    if word_eq_ci(e, seq!['j', 's', 'o', 'n']) {
        Some(Kind::Json)
    } else if word_eq_ci(e, seq!['c', 's', 'v']) {
        Some(Kind::Csv)
    } else if word_eq_ci(e, seq!['x', 'm', 'l']) || word_eq_ci(e, seq!['h', 't', 'm', 'l']) {
        Some(Kind::Xml)
    } else if word_eq_ci(e, seq!['y', 'a', 'm', 'l']) || word_eq_ci(e, seq!['y', 'm', 'l']) {
        Some(Kind::Yaml)
    } else if word_eq_ci(e, seq!['e', 'n', 'v']) || word_eq_ci(
        e,
        seq!['p', 'r', 'o', 'p', 'e', 'r', 't', 'i', 'e', 's'],
    ) {
        Some(Kind::Properties)
    } else {
        None
    }
}

/// Confidence, in hundredths, of a classification made from an extension.
pub open spec fn ext_confidence(k: Kind) -> u32 {
    match k {
        Kind::Xml | Kind::Properties => 90,
        _ => 95,
    }
}

/// The dialect that the extension `e` names, if any.
pub fn kind_of_extension(e: &[char]) -> (r: Option<Kind>)
    ensures
        r == ext_kind(e@),
{
    let json = ['j', 's', 'o', 'n'];
    let csv = ['c', 's', 'v'];
    let xml = ['x', 'm', 'l'];
    let html = ['h', 't', 'm', 'l'];
    let yaml = ['y', 'a', 'm', 'l'];
    let yml = ['y', 'm', 'l'];
    let env = ['e', 'n', 'v'];
    let props = ['p', 'r', 'o', 'p', 'e', 'r', 't', 'i', 'e', 's'];
    assert(json@ =~= seq!['j', 's', 'o', 'n']);
    assert(csv@ =~= seq!['c', 's', 'v']);
    assert(xml@ =~= seq!['x', 'm', 'l']);
    assert(html@ =~= seq!['h', 't', 'm', 'l']);
    assert(yaml@ =~= seq!['y', 'a', 'm', 'l']);
    assert(yml@ =~= seq!['y', 'm', 'l']);
    assert(env@ =~= seq!['e', 'n', 'v']);
    assert(props@ =~= seq!['p', 'r', 'o', 'p', 'e', 'r', 't', 'i', 'e', 's']);
    if same_word_ci(e, &json) {
        Some(Kind::Json)
    } else if same_word_ci(e, &csv) {
        Some(Kind::Csv)
    } else if same_word_ci(e, &xml) || same_word_ci(e, &html) {
        Some(Kind::Xml)
    } else if same_word_ci(e, &yaml) || same_word_ci(e, &yml) {
        Some(Kind::Yaml)
    } else if same_word_ci(e, &env) || same_word_ci(e, &props) {
        Some(Kind::Properties)
    } else {
        None
    }
}


/// A line that suggests YAML: after trimming it is not empty, not a `#`
/// comment, does not open a JSON object, and holds `": "`.
pub open spec fn yaml_line(l: Seq<char>) -> bool {
    let u = trim(l);
    u.len() > 0 && u[0] != '#' && u[0] != '{' && contains_pair(u, ':', ' ')
}

/// One of the first three of `ls` suggests YAML.
pub open spec fn yaml_head(ls: Seq<Seq<char>>) -> bool {
    exists|i: int| 0 <= i < 3 && i < ls.len() && yaml_line(#[trigger] ls[i])
}

/// A trimmed line that fits a properties file: blank, a `#` comment, or a
/// line holding `=` that does not start with `=`.
pub open spec fn prop_line_ok(u: Seq<char>) -> bool {
    u.len() == 0 || u[0] == '#' || (u.contains('=') && u[0] != '=')
}

/// Every line fits a properties file, and one of them holds `=`.
pub open spec fn props_shape(ls: Seq<Seq<char>>) -> bool {
    &&& forall|i: int| 0 <= i < ls.len() ==> prop_line_ok(trim(#[trigger] ls[i]))
    &&& exists|i: int| 0 <= i < ls.len() && trim(#[trigger] ls[i]).contains('=')
}

/// Classification of a text by its content alone: the first rule that
/// matches the trimmed text wins; the confidence is in hundredths.
pub open spec fn heuristic(s: Seq<char>) -> (Kind, u32) {
    let t = trim(s);
    let ls = lines_of(t);
    if (starts(t, '{') || starts(t, '[')) && t.contains('"') {
        (Kind::Json, 85)
    } else if t.contains(',') && t.contains('\n') && ls.len() > 0 && ls[0].contains(',') {
        (Kind::Csv, 70)
    } else if t.len() >= 3 && t[0] == '-' && t[1] == '-' && t[2] == '-' {
        (Kind::Yaml, 75)
    } else if t.contains('\n') && contains_pair(t, ':', ' ') && !starts(t, '{') && !starts(t, '[')
        && yaml_head(ls) {
        (Kind::Yaml, 65)
    } else if t.contains('=') && !starts(t, '{') && props_shape(ls) {
        (Kind::Properties, 65)
    } else {
        (Kind::Text, 50)
    }
}

fn is_yaml_line(l: &[char]) -> (r: bool)
    ensures
        r == yaml_line(l@),
{
    let u = trim_chars(l);
    u.len() > 0 && u[0] != '#' && u[0] != '{' && has_pair(&u, ':', ' ')
}

fn has_yaml_head(ls: &Vec<Vec<char>>) -> (r: bool)
    ensures
        r == yaml_head(ls@.map_values(|l: Vec<char>| l@)),
{
    let ghost v = ls@.map_values(|l: Vec<char>| l@);
    let mut i: usize = 0;
    while i < 3 && i < ls.len()
        invariant
            i <= 3,
            v == ls@.map_values(|l: Vec<char>| l@),
            forall|k: int| 0 <= k < i && k < v.len() ==> !yaml_line(#[trigger] v[k]),
        decreases 3 - i,
    {
        if is_yaml_line(&ls[i]) {
            assert(yaml_line(v[i as int]));
            return true;
        }
        i = i + 1;
    }
    false
}

fn has_props_shape(ls: &Vec<Vec<char>>) -> (r: bool)
    ensures
        r == props_shape(ls@.map_values(|l: Vec<char>| l@)),
{
    let ghost v = ls@.map_values(|l: Vec<char>| l@);
    let mut any_eq = false;
    let mut i: usize = 0;
    while i < ls.len()
        invariant
            i <= ls@.len() == v.len(),
            v == ls@.map_values(|l: Vec<char>| l@),
            forall|k: int| 0 <= k < i ==> prop_line_ok(trim(#[trigger] v[k])),
            any_eq == exists|k: int| 0 <= k < i && trim(#[trigger] v[k]).contains('='),
        decreases ls@.len() - i,
    {
        let u = trim_chars(&ls[i]);
        let has_eq = contains_char(&u, '=');
        if !(u.len() == 0 || u[0] == '#' || (has_eq && u[0] != '=')) {
            assert(!prop_line_ok(trim(v[i as int])));
            return false;
        }
        if has_eq {
            assert(trim(v[i as int]).contains('='));
        }
        any_eq = any_eq || has_eq;
        i = i + 1;
    }
    any_eq
}

/// Classifies `s` by its content alone.
pub fn content_heuristic(s: &[char]) -> (r: (Kind, u32))
    ensures
        r == heuristic(s@),
{
    let t = trim_chars(s);
    let ls = lines(&t);
    let ghost v = ls@.map_values(|l: Vec<char>| l@);
    assert(v =~= lines_of(t@));
    let open_obj = starts_with_char(&t, '{');
    let open_arr = starts_with_char(&t, '[');
    let has_nl = contains_char(&t, '\n');
    if (open_obj || open_arr) && contains_char(&t, '"') {
        return (Kind::Json, 85);
    }
    if contains_char(&t, ',') && has_nl && ls.len() > 0 && contains_char(&ls[0], ',') {
        return (Kind::Csv, 70);
    }
    if t.len() >= 3 && t[0] == '-' && t[1] == '-' && t[2] == '-' {
        return (Kind::Yaml, 75);
    }
    if has_nl && has_pair(&t, ':', ' ') && !open_obj && !open_arr && has_yaml_head(&ls) {
        return (Kind::Yaml, 65);
    }
    if contains_char(&t, '=') && !open_obj && has_props_shape(&ls) {
        return (Kind::Properties, 65);
    }
    (Kind::Text, 50)
}


/// Result of classifying a buffer: the dialect's name and the confidence, in
/// hundredths (95 stands for 0.95).
#[derive(Debug)]
pub struct DetectedType {
    pub kind: String,
    pub confidence: u32,
}

/// The extension hint as characters; no hint counts as the empty extension.
pub open spec fn hint_of(extension: Option<String>) -> Seq<char> {
    match extension {
        Some(e) => e@,
        None => Seq::<char>::empty(),
    }
}

/// Whole-buffer classification: a known extension decides, else the content.
pub open spec fn detection(content: Seq<char>, ext: Seq<char>) -> (Kind, u32) {
    match ext_kind(ext) {
        Some(k) => (k, ext_confidence(k)),
        None => heuristic(content),
    }
}

pub fn hint_chars(extension: &Option<String>) -> (r: Vec<char>)
    ensures
        r@ == hint_of(*extension),
{
    match extension {
        Some(e) => to_chars(e.as_str()),
        None => Vec::new(),
    }
}

/// Classifies a whole buffer, with an optional file extension as a hint.
pub fn detect_content(content: &str, extension: Option<String>) -> (r: DetectedType)
    ensures
        r.kind@ == label_of(detection(content@, hint_of(extension)).0),
        r.confidence == detection(content@, hint_of(extension)).1,
{
    let ext = hint_chars(&extension);
    let (kind, confidence) = match kind_of_extension(&ext) {
        Some(k) => (k, if k == Kind::Xml || k == Kind::Properties { 90 } else { 95 }),
        None => content_heuristic(&to_chars(content)),
    };
    DetectedType { kind: kind.label(), confidence }
}

/// Classification of one line of a buffer: blank lines are text; the first
/// line honours a known extension; every other line goes by its trimmed
/// content.
pub open spec fn line_kind(line: Seq<char>, index: int, ext: Seq<char>) -> Kind {
    let t = trim(line);
    if t.len() == 0 {
        Kind::Text
    } else if index == 0 && ext_kind(ext) is Some {
        ext_kind(ext)->Some_0
    } else {
        heuristic(t).0
    }
}

pub fn line_kind_of(line: &[char], index: usize, ext: &[char]) -> (r: Kind)
    ensures
        r == line_kind(line@, index as int, ext@),
{
    let t = trim_chars(line);
    if t.len() == 0 {
        return Kind::Text;
    }
    if index == 0 && ext.len() > 0 {
        if let Some(k) = kind_of_extension(ext) {
            return k;
        }
    }
    proof {
        if index == 0 && ext@.len() == 0 {
            assert(!word_eq_ci(ext@, seq!['j', 's', 'o', 'n']));
            assert(!word_eq_ci(ext@, seq!['c', 's', 'v']));
            assert(!word_eq_ci(ext@, seq!['x', 'm', 'l']));
            assert(!word_eq_ci(ext@, seq!['h', 't', 'm', 'l']));
            assert(!word_eq_ci(ext@, seq!['y', 'a', 'm', 'l']));
            assert(!word_eq_ci(ext@, seq!['y', 'm', 'l']));
            assert(!word_eq_ci(ext@, seq!['e', 'n', 'v']));
            assert(!word_eq_ci(ext@, seq!['p', 'r', 'o', 'p', 'e', 'r', 't', 'i', 'e', 's']));
        }
    }
    content_heuristic(&t).0
}

/// The dialect name of one line of a buffer (see `line_kind`).
pub fn detect_line_kind(line: &str, line_index: usize, ext: &str) -> (r: String)
    ensures
        r@ == label_of(line_kind(line@, line_index as int, ext@)),
{
    let k = line_kind_of(&to_chars(line), line_index, &to_chars(ext));
    k.label()
}


/// A known extension decides the dialect, whatever the text holds.
pub proof fn extension_decides(t: Seq<char>, e: Seq<char>)
    requires
        ext_kind(e) is Some,
    ensures
        detection(t, e).0 == ext_kind(e)->Some_0,
        detection(t, e).1 == 90 || detection(t, e).1 == 95,
{
}

/// Without a hint the confidence is one of the fixed constants.
pub proof fn heuristic_confidence_fixed(t: Seq<char>)
    ensures
        ({
            let c = detection(t, Seq::<char>::empty()).1;
            c == 95 || c == 90 || c == 85 || c == 75 || c == 70 || c == 65 || c == 50
        }),
{
    assert(!word_eq_ci(Seq::<char>::empty(), seq!['j', 's', 'o', 'n']));
    assert(!word_eq_ci(Seq::<char>::empty(), seq!['c', 's', 'v']));
    assert(!word_eq_ci(Seq::<char>::empty(), seq!['x', 'm', 'l']));
    assert(!word_eq_ci(Seq::<char>::empty(), seq!['h', 't', 'm', 'l']));
    assert(!word_eq_ci(Seq::<char>::empty(), seq!['y', 'a', 'm', 'l']));
    assert(!word_eq_ci(Seq::<char>::empty(), seq!['y', 'm', 'l']));
    assert(!word_eq_ci(Seq::<char>::empty(), seq!['e', 'n', 'v']));
    assert(!word_eq_ci(
        Seq::<char>::empty(),
        seq!['p', 'r', 'o', 'p', 'e', 'r', 't', 'i', 'e', 's'],
    ));
}

} // verus!
