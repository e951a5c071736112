//! Capture: rendering a template and appending it to a file, under a
//! heading when the template names one.

use vstd::prelude::*;

use crate::config::{join_path, joined_path};
use crate::diary::{replace_all, replaced};
use crate::lines::{spec_heading, try_heading};
use crate::parser::{parse_yaml, yaml_error};
use crate::text::{
    append_chars, chars_of, ends_with, find_char, find_seq, index_of, index_of_seq, lemma_find_char_some,
    skip, slice_of, starts_with, string_of,
};

verus! {

/// A template with its placeholders filled: `{input}`, then `{date}`,
/// `{datetime}` and `{time}`, each replaced in turn.
pub open spec fn rendered(
    template: Seq<char>,
    input: Seq<char>,
    date: Seq<char>,
    datetime: Seq<char>,
    time: Seq<char>,
) -> Seq<char> {
    replaced(
        replaced(
            replaced(replaced(template, "{input}"@, input), "{date}"@, date),
            "{datetime}"@,
            datetime,
        ),
        "{time}"@,
        time,
    )
}

/// Fills the placeholders of a capture template (see [`rendered`]).
pub fn render_template(template: &str, input: &str, date: &str, datetime: &str, time: &str) -> (r:
    String)
    ensures
        r@ == rendered(template@, input@, date@, datetime@, time@),
{
    proof {
        reveal_strlit("{input}");
        reveal_strlit("{date}");
        reveal_strlit("{datetime}");
        reveal_strlit("{time}");
    }
    let a = replace_all(&chars_of(template), &chars_of("{input}"), &chars_of(input));
    let b = replace_all(&a, &chars_of("{date}"), &chars_of(date));
    let c = replace_all(&b, &chars_of("{datetime}"), &chars_of(datetime));
    let d = replace_all(&c, &chars_of("{time}"), &chars_of(time));
    string_of(&d)
}

/// A heading template with `{input}` and then `{date}` filled.
pub open spec fn rendered_heading(heading: Seq<char>, input: Seq<char>, date: Seq<char>) -> Seq<
    char,
> {
    replaced(replaced(heading, "{input}"@, input), "{date}"@, date)
}

/// Fills the placeholders of a heading template (see [`rendered_heading`]).
pub fn render_heading(heading: &str, input: &str, date: &str) -> (r: String)
    ensures
        r@ == rendered_heading(heading@, input@, date@),
{
    proof {
        reveal_strlit("{input}");
        reveal_strlit("{date}");
    }
    let a = replace_all(&chars_of(heading), &chars_of("{input}"), &chars_of(input));
    let b = replace_all(&a, &chars_of("{date}"), &chars_of(date));
    string_of(&b)
}

/// `s` ended by a newline when it is not empty and does not end with one.
pub open spec fn line_ended(s: Seq<char>) -> Seq<char> {
    if s.len() > 0 && s.last() != '\n' {
        s.push('\n')
    } else {
        s
    }
}

/// Where the line holding position `p` of `s` ends: its `\n`, or the end.
pub open spec fn line_end_at(s: Seq<char>, p: int) -> int {
    match find_char(s.skip(p), '\n') {
        Some(k) => p + k,
        None => s.len() as int,
    }
}

/// Where the line after the one holding position `p` starts (the end when
/// there is none).
pub open spec fn next_line_at(s: Seq<char>, p: int) -> int {
    let e = line_end_at(s, p);
    if e < s.len() {
        e + 1
    } else {
        s.len() as int
    }
}

/// The start of the first heading line of `s` at or after the line start
/// `p`.
pub open spec fn heading_line_from(s: Seq<char>, p: int) -> Option<int>
    decreases s.len() - p,
{
    if p < 0 || p >= s.len() {
        None
    } else if spec_heading(s.subrange(p, line_end_at(s, p))) is Some {
        Some(p)
    } else {
        proof {
            lemma_find_char_some(s.skip(p), '\n');
        }
        heading_line_from(s, next_line_at(s, p))
    }
}

/// The file text once `entry` is captured into `content`.  With a heading
/// that the text contains, the entry goes under it: before the next heading
/// line after it, or at the end when there is none.  A heading that the
/// text lacks is added at the end, after a blank line, with the entry
/// under it.  Without a heading the entry goes at the end.
pub open spec fn captured(content: Seq<char>, heading: Option<Seq<char>>, entry: Seq<char>) -> Seq<
    char,
> {
    match heading {
        Some(h) => match find_seq(content, h) {
            Some(i) => match heading_line_from(content, next_line_at(content, (i + h.len()) as int)) {
                Some(k) => content.take(k) + entry + seq!['\n'] + content.skip(k),
                None => line_ended(content) + entry + seq!['\n'],
            },
            None => line_ended(content).push('\n') + h + seq!['\n'] + entry + seq!['\n'],
        },
        None => line_ended(content) + entry + seq!['\n'],
    }
}

fn end_line(out: &mut Vec<char>)
    ensures
        final(out)@ == line_ended(old(out)@),
{
    if out.len() > 0 && out[out.len() - 1] != '\n' {
        out.push('\n');
    }
}

/// Where the line after the one holding position `p` starts.
fn next_line_of(s: &[char], p: usize) -> (r: usize)
    requires
        p <= s.len(),
    ensures
        r as int == next_line_at(s@, p as int),
        p <= r <= s.len(),
{
    let rest = skip(s, p);
    proof {
        lemma_find_char_some(s@.skip(p as int), '\n');
    }
    match index_of(&rest, '\n') {
        Some(k) => p + k + 1,
        None => s.len(),
    }
}

/// The start of the first heading line of `s` at or after the line start
/// `p` (see [`heading_line_from`]).
fn heading_line_of(s: &[char], p: usize) -> (r: Option<usize>)
    requires
        p <= s.len(),
    ensures
        match r {
            Some(k) => heading_line_from(s@, p as int) == Some(k as int) && k <= s.len(),
            None => heading_line_from(s@, p as int) is None,
        },
{
    let mut q = p;
    while q < s.len()
        invariant
            p <= q <= s.len(),
            heading_line_from(s@, q as int) == heading_line_from(s@, p as int),
        decreases s.len() - q,
    {
        let rest = skip(s, q);
        proof {
            lemma_find_char_some(s@.skip(q as int), '\n');
        }
        let e = match index_of(&rest, '\n') {
            Some(k) => q + k,
            None => s.len(),
        };
        let line = slice_of(s, q, e);
        if try_heading(&line).is_some() {
            return Some(q);
        }
        q = if e < s.len() {
            e + 1
        } else {
            s.len()
        };
    }
    None
}

/// Appends a captured entry to a file's text (see [`captured`]).
pub fn capture_into(content: &str, heading: Option<&str>, entry: &str) -> (r: String)
    ensures
        r@ == captured(
            content@,
            match heading {
                Some(h) => Some(h@),
                None => None,
            },
            entry@,
        ),
{
    let mut out = chars_of(content);
    match heading {
        Some(h) => {
            let hc = chars_of(h);
            match index_of_seq(&out, &hc) {
                None => {
                    end_line(&mut out);
                    out.push('\n');
                    append_chars(&mut out, &hc);
                    out.push('\n');
                    append_chars(&mut out, &chars_of(entry));
                    out.push('\n');
                },
                Some(i) => {
                    let start = next_line_of(&out, i + hc.len());
                    match heading_line_of(&out, start) {
                        Some(k) => {
                            let mut r = slice_of(&out, 0, k);
                            append_chars(&mut r, &chars_of(entry));
                            r.push('\n');
                            append_chars(&mut r, &skip(&out, k));
                            out = r;
                        },
                        None => {
                            end_line(&mut out);
                            append_chars(&mut out, &chars_of(entry));
                            out.push('\n');
                        },
                    }
                },
            }
        },
        None => {
            end_line(&mut out);
            append_chars(&mut out, &chars_of(entry));
            out.push('\n');
        },
    }
    string_of(&out)
}

/// A capture target with a leading `~/` taken from `home`.
pub open spec fn home_expanded(path: Seq<char>, home: Seq<char>) -> Seq<char> {
    if path.len() >= 2 && path[0] == '~' && path[1] == '/' {
        joined_path(home, path.skip(2))
    } else {
        path
    }
}

/// Expands a leading `~/` of a capture target (see [`home_expanded`]).
pub fn expand_home(path: &str, home: &str) -> (r: String)
    ensures
        r@ == home_expanded(path@, home@),
{
    let p = chars_of(path);
    if p.len() >= 2 && p[0] == '~' && p[1] == '/' {
        let rest = string_of(&crate::text::skip(&p, 2));
        join_path(home, rest.as_str())
    } else {
        string_of(&p)
    }
}

// ===========================================================================
// The capture configuration
// ===========================================================================
/// What `serde_yaml` finds when it reads `raw` as a YAML document and
/// follows `path` key by key: `None` when the text is not YAML or a key is
/// missing, `Some(Some(s))` for the string `s`, `Some(None)` for any other
/// value.
pub uninterp spec fn yaml_path(raw: Seq<char>, path: Seq<Seq<char>>) -> Option<Option<Seq<char>>>;

/// The views of a list of strings.
pub open spec fn strs_view(v: Seq<String>) -> Seq<Seq<char>> {
    v.map_values(|s: String| s@)
}

/// A found value by view.
pub open spec fn node_view(r: Option<Option<String>>) -> Option<Option<Seq<char>>> {
    match r {
        Some(Some(s)) => Some(Some(s@)),
        Some(None) => Some(None),
        None => None,
    }
}

/// Reads `raw` with `serde_yaml::from_str::<serde_yaml::Value>`, applies
/// `Value::get` with each key of `path` in turn, and takes the value found
/// with `Value::as_str`.  The contract claims only that the result depends
/// on `raw` and `path` alone.
#[verifier::external_body]
fn yaml_path_str(raw: &str, path: &Vec<String>) -> (r: Option<Option<String>>)
    ensures
        node_view(r) == yaml_path(raw@, strs_view(path@)),
{
    let doc = serde_yaml::from_str::<serde_yaml::Value>(raw).ok();
    let mut cur = doc.as_ref();
    for key in path {
        cur = cur.and_then(|v| v.get(key.as_str()));
    }
    cur.map(|v| v.as_str().map(String::from))
}

/// A capture template read from the configuration.
#[derive(Debug, Clone, PartialEq)]
pub struct CaptureTemplate {
    /// The file the entry goes to.
    pub target: String,
    /// The text of the entry, with placeholders.
    pub template: String,
    /// The heading the entry goes under, if any.
    pub heading: Option<String>,
}

/// Why the capture configuration gives no template.
#[derive(Debug, Clone, PartialEq)]
pub enum CaptureConfigError {
    /// The configuration is not YAML; the parser's message.
    InvalidYaml(String),
    /// No `templates` key.
    NoTemplates,
    /// No template of this name under `templates`.
    UnknownTemplate(String),
    /// The template has no string `target`.
    MissingTarget,
    /// The template has no string `template`.
    MissingTemplate,
}

/// The message shown for a capture configuration error: the parser's own
/// message for text that is not YAML, a fixed sentence for the others.
pub open spec fn message_text(e: CaptureConfigError) -> Seq<char> {
    match e {
        CaptureConfigError::InvalidYaml(m) => m@,
        CaptureConfigError::NoTemplates => "No 'templates' key in capture config"@,
        CaptureConfigError::UnknownTemplate(n) => "Template '"@ + n@ + "' not found in config"@,
        CaptureConfigError::MissingTarget => "Template missing 'target' field"@,
        CaptureConfigError::MissingTemplate => "Template missing 'template' field"@,
    }
}

impl CaptureConfigError {
    /// The message shown for the error (see [`message_text`]).
    pub fn message(&self) -> (s: String)
        ensures
            s@ == message_text(*self),
    {
        match self {
            CaptureConfigError::InvalidYaml(m) => m.clone(),
            CaptureConfigError::NoTemplates => "No 'templates' key in capture config".to_string(),
            CaptureConfigError::UnknownTemplate(n) => {
                let mut out = chars_of("Template '");
                append_chars(&mut out, &chars_of(n.as_str()));
                append_chars(&mut out, &chars_of("' not found in config"));
                string_of(&out)
            },
            CaptureConfigError::MissingTarget => "Template missing 'target' field".to_string(),
            CaptureConfigError::MissingTemplate => "Template missing 'template' field".to_string(),
        }
    }
}

/// The path of a key of a template in the configuration.
pub open spec fn template_key(name: Seq<char>, key: Seq<char>) -> Seq<Seq<char>> {
    seq!["templates"@, name, key]
}

/// The path of a key in the configuration: `templates`, then `name` and
/// `key` when given.
fn template_path(name: Option<&str>, key: Option<&str>) -> (r: Vec<String>)
    ensures
        strs_view(r@) == seq!["templates"@] + match name {
            Some(x) => seq![x@],
            None => Seq::empty(),
        } + match key {
            Some(x) => seq![x@],
            None => Seq::empty(),
        },
{
    let mut out: Vec<String> = Vec::new();
    out.push(string_of(&chars_of("templates")));
    assert(strs_view(out@) =~= seq!["templates"@]);
    match name {
        Some(x) => {
            let ghost before = strs_view(out@);
            out.push(string_of(&chars_of(x)));
            assert(strs_view(out@) =~= before.push(x@));
        },
        None => {},
    }
    match key {
        Some(x) => {
            let ghost before = strs_view(out@);
            out.push(string_of(&chars_of(x)));
            assert(strs_view(out@) =~= before.push(x@));
        },
        None => {},
    }
    assert(strs_view(out@) =~= seq!["templates"@] + match name {
        Some(x) => seq![x@],
        None => Seq::<Seq<char>>::empty(),
    } + match key {
        Some(x) => seq![x@],
        None => Seq::<Seq<char>>::empty(),
    });
    out
}

/// The template `name` of the capture configuration `config`: an error when
/// the text is not YAML, when it has no `templates` key, when that holds no
/// `name`, or when the template has no string `target` or `template`;
/// otherwise those strings, and its `heading` when that is a string.
pub fn capture_template(config: &str, name: &str) -> (r: Result<CaptureTemplate, CaptureConfigError>)
    ensures
        ({
            let t = "templates"@;
            let n = name@;
            match r {
                Err(CaptureConfigError::InvalidYaml(m)) => yaml_error(config@) == Some(m@),
                Err(CaptureConfigError::NoTemplates) => yaml_error(config@) is None && yaml_path(
                    config@,
                    seq![t],
                ) is None,
                Err(CaptureConfigError::UnknownTemplate(x)) => x@ == n && yaml_error(config@) is None
                    && yaml_path(config@, seq![t]) is Some && yaml_path(config@, seq![t, n]) is None,
                Err(CaptureConfigError::MissingTarget) => yaml_error(config@) is None && yaml_path(
                    config@,
                    seq![t],
                ) is Some && yaml_path(config@, seq![t, n]) is Some && !(yaml_path(
                    config@,
                    template_key(n, "target"@),
                ) matches Some(Some(_))),
                Err(CaptureConfigError::MissingTemplate) => yaml_error(config@) is None && yaml_path(
                    config@,
                    seq![t],
                ) is Some && yaml_path(config@, seq![t, n]) is Some && (yaml_path(
                    config@,
                    template_key(n, "target"@),
                ) matches Some(Some(_))) && !(yaml_path(config@, template_key(n, "template"@)) matches Some(
                    Some(_),
                )),
                Ok(c) => yaml_error(config@) is None && yaml_path(config@, seq![t]) is Some
                    && yaml_path(config@, seq![t, n]) is Some && yaml_path(
                    config@,
                    template_key(n, "target"@),
                ) == Some(Some(c.target@)) && yaml_path(config@, template_key(n, "template"@))
                    == Some(Some(c.template@)) && match yaml_path(
                    config@,
                    template_key(n, "heading"@),
                ) {
                    Some(Some(h)) => c.heading matches Some(x) && x@ == h,
                    _ => c.heading is None,
                },
            }
        }),
{
    match parse_yaml(config) {
        Err(m) => {
            return Err(CaptureConfigError::InvalidYaml(m));
        },
        Ok(_) => {},
    }
    let ghost t = "templates"@;
    let ghost n = name@;
    let p0 = template_path(None, None);
    assert(seq![t] + Seq::<Seq<char>>::empty() + Seq::<Seq<char>>::empty() =~= seq![t]);
    let templates = yaml_path_str(config, &p0);
    if templates.is_none() {
        return Err(CaptureConfigError::NoTemplates);
    }
    let p1 = template_path(Some(name), None);
    assert(seq![t] + seq![n] + Seq::<Seq<char>>::empty() =~= seq![t, n]);
    let template = yaml_path_str(config, &p1);
    if template.is_none() {
        return Err(CaptureConfigError::UnknownTemplate(string_of(&chars_of(name))));
    }
    let p_target = template_path(Some(name), Some("target"));
    assert(seq![t] + seq![n] + seq!["target"@] =~= template_key(n, "target"@));
    let target = yaml_path_str(config, &p_target);
    let target = match target {
        Some(Some(s)) => s,
        _ => {
            return Err(CaptureConfigError::MissingTarget);
        },
    };
    let p_template = template_path(Some(name), Some("template"));
    assert(seq![t] + seq![n] + seq!["template"@] =~= template_key(n, "template"@));
    let body = yaml_path_str(config, &p_template);
    let body = match body {
        Some(Some(s)) => s,
        _ => {
            return Err(CaptureConfigError::MissingTemplate);
        },
    };
    let p_heading = template_path(Some(name), Some("heading"));
    assert(seq![t] + seq![n] + seq!["heading"@] =~= template_key(n, "heading"@));
    let heading = yaml_path_str(config, &p_heading);
    let heading = match heading {
        Some(Some(s)) => Some(s),
        _ => None,
    };
    Ok(CaptureTemplate { target, template: body, heading })
}

} // verus!
