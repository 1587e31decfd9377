//! The persisted settings record: one optional output path, stored as a
//! small key/value text record.
//!
//! The record is written as `{"output_path":null}` or
//! `{"output_path":"<value>"}`, where `"` and `\` inside the value are
//! escaped with a backslash. Rendering and parsing are exact inverses, which
//! `lemma_config_round_trip` states and proves.

use vstd::prelude::*;

verus! {

/// The persisted settings: the remembered output directory, if any was set.
pub struct AppConfig {
    pub output_path: Option<String>,
}

impl View for AppConfig {
    type V = Option<Seq<char>>;

    open spec fn view(&self) -> Option<Seq<char>> {
        match self.output_path {
            None => None,
            Some(s) => Some(s@),
        }
    }
}

/// How one character is written inside the record's quoted value.
pub open spec fn escape_char(c: char) -> Seq<char> {
    if c == '"' {
        seq!['\\', '"']
    } else if c == '\\' {
        seq!['\\', '\\']
    } else {
        seq![c]
    }
}

/// A value's characters, each written as `escape_char` says.
pub open spec fn escaped(s: Seq<char>) -> Seq<char>
    decreases s.len(),
{
    if s.len() == 0 {
        Seq::empty()
    } else {
        escape_char(s[0]) + escaped(s.skip(1))
    }
}

/// Reading a quoted value's characters back; `None` on a dangling backslash,
/// an unknown escape, or an unescaped quote.
pub open spec fn unescaped(b: Seq<char>) -> Option<Seq<char>>
    decreases b.len(),
{
    if b.len() == 0 {
        Some(Seq::empty())
    } else if b[0] == '\\' {
        if b.len() >= 2 && (b[1] == '"' || b[1] == '\\') {
            match unescaped(b.skip(2)) {
                None => None,
                Some(t) => Some(seq![b[1]] + t),
            }
        } else {
            None
        }
    } else if b[0] == '"' {
        None
    } else {
        match unescaped(b.skip(1)) {
            None => None,
            Some(t) => Some(seq![b[0]] + t),
        }
    }
}

/// Unescaping undoes escaping, for every value.
pub proof fn lemma_unescape_escape(s: Seq<char>)
    ensures
        unescaped(escaped(s)) == Some(s),
    decreases s.len(),
{
    if s.len() == 0 {
    } else {
        lemma_unescape_escape(s.skip(1));
        let e = escaped(s);
        let c = s[0];
        if c == '"' || c == '\\' {
            assert(e[0] == '\\' && e[1] == c);
            assert(e.skip(2) =~= escaped(s.skip(1)));
            assert(seq![c] + s.skip(1) =~= s);
        } else {
            assert(e[0] == c);
            assert(e.skip(1) =~= escaped(s.skip(1)));
            assert(seq![c] + s.skip(1) =~= s);
        }
    }
}

/// The record for an unset output path.
pub open spec fn record_null() -> Seq<char> {
    "{\"output_path\":null}"@
}

/// What stands before a set output path's value.
pub open spec fn record_prefix() -> Seq<char> {
    "{\"output_path\":\""@
}

/// What stands after a set output path's value.
pub open spec fn record_suffix() -> Seq<char> {
    "\"}"@
}

/// The settings record for `v`.
pub open spec fn config_record(v: Option<Seq<char>>) -> Seq<char> {
    match v {
        None => record_null(),
        Some(s) => record_prefix() + escaped(s) + record_suffix(),
    }
}

/// What a record text stands for: `None` when it is not a well-formed
/// record, `Some(v)` when it is the record for `v`.
pub open spec fn parse_record(s: Seq<char>) -> Option<Option<Seq<char>>> {
    if s == record_null() {
        Some(None)
    } else if s.len() >= record_prefix().len() + record_suffix().len() && s.take(
        record_prefix().len() as int,
    ) == record_prefix() && s.skip(s.len() - record_suffix().len()) == record_suffix() {
        match unescaped(s.subrange(record_prefix().len() as int, s.len() - record_suffix().len())) {
            None => None,
            Some(t) => Some(Some(t)),
        }
    } else {
        None
    }
}

/// Law: settings round-trip. Parsing the rendered record gives back exactly
/// the value that was rendered, for every value.
pub proof fn lemma_config_round_trip(v: Option<Seq<char>>)
    ensures
        parse_record(config_record(v)) == Some(v),
{
    reveal_strlit("{\"output_path\":null}");
    reveal_strlit("{\"output_path\":\"");
    reveal_strlit("\"}");
    match v {
        None => {
        },
        Some(s) => {
            let r = config_record(Some(s));
            let p = record_prefix();
            let e = escaped(s);
            assert(r != record_null()) by {
                assert(r[15] == p[15]);
                assert(p[15] == '"');
                assert(record_null()[15] == 'n');
            }
            assert(r.take(p.len() as int) =~= p);
            assert(r.skip(r.len() - 2) =~= record_suffix());
            assert(r.subrange(p.len() as int, r.len() - 2) =~= e);
            lemma_unescape_escape(s);
        },
    }
}

/// Relies on `String::push` of std: appends exactly the one character.
#[verifier::external_body]
fn push_char(s: &mut String, c: char)
    ensures
        final(s)@ == old(s)@.push(c),
{
    s.push(c);
}

/// Whether two strings hold the same characters.
fn str_eq(a: &str, b: &str) -> (r: bool)
    ensures
        r == (a@ == b@),
{
    let ao = a.to_owned();
    let bo = b.to_owned();
    ao == bo
}

/// `s` written as it stands inside the record's quoted value.
fn escape_string(s: &str) -> (r: String)
    ensures
        r@ == escaped(s@),
{
    proof {
        reveal_strlit("\\\"");
        reveal_strlit("\\\\");
    }
    let n = s.unicode_len();
    let mut out = String::new();
    proof {
        assert(s@.skip(0) =~= s@);
        assert(out@ + escaped(s@) =~= escaped(s@));
    }
    let mut i: usize = 0;
    while i < n
        invariant
            i <= n,
            n == s@.len(),
            escaped(s@) == out@ + escaped(s@.skip(i as int)),
        decreases n - i,
    {
        let ghost rest = s@.skip(i as int);
        let ghost before = out@;
        let c = s.get_char(i);
        proof {
            assert(rest[0] == c);
            assert(rest.skip(1) =~= s@.skip(i as int + 1));
            assert(escaped(rest) == escape_char(c) + escaped(s@.skip(i as int + 1)));
        }
        if c == '"' {
            out = out.concat("\\\"");
            proof {
                reveal_strlit("\\\"");
            }
        } else if c == '\\' {
            out = out.concat("\\\\");
            proof {
                reveal_strlit("\\\\");
            }
        } else {
            push_char(&mut out, c);
        }
        proof {
            assert(out@ =~= before + escape_char(c));
            assert(before + (escape_char(c) + escaped(s@.skip(i as int + 1))) =~= out@ + escaped(
                s@.skip(i as int + 1),
            ));
        }
        i = i + 1;
    }
    proof {
        assert(s@.skip(n as int) =~= Seq::<char>::empty());
        assert(out@ + escaped(s@.skip(n as int)) =~= out@);
    }
    out
}

/// The record text that remembers `output_path`, ready to be persisted.
pub fn set_output_path(output_path: &str) -> (r: String)
    ensures
        r@ == config_record(Some(output_path@)),
{
    let body = escape_string(output_path);
    let r = String::from_str("{\"output_path\":\"").concat(body.as_str()).concat("\"}");
    assert(r@ =~= config_record(Some(output_path@)));
    r
}

/// The record text for an unset output path.
pub fn render_unset() -> (r: String)
    ensures
        r@ == config_record(None),
{
    String::from_str("{\"output_path\":null}")
}

/// Reads a quoted value's characters back, as `unescaped` says.
fn unescape_string(b: &str) -> (r: Option<String>)
    ensures
        match r {
            Some(t) => unescaped(b@) == Some(t@),
            None => unescaped(b@) is None,
        },
{
    let n = b.unicode_len();
    let mut out = String::new();
    proof {
        assert(b@.skip(0) =~= b@);
        if let Some(t) = unescaped(b@) {
            assert(out@ + t =~= t);
        }
    }
    let mut i: usize = 0;
    while i < n
        invariant
            i <= n,
            n == b@.len(),
            unescaped(b@) == (match unescaped(b@.skip(i as int)) {
                None => None::<Seq<char>>,
                Some(t) => Some(out@ + t),
            }),
        decreases n - i,
    {
        let ghost rest = b@.skip(i as int);
        let ghost before = out@;
        let c = b.get_char(i);
        proof {
            assert(rest[0] == c);
        }
        if c == '\\' {
            if i + 1 >= n {
                assert(rest.len() < 2);
                return None;
            }
            let d = b.get_char(i + 1);
            proof {
                assert(rest[1] == d);
            }
            if d == '"' || d == '\\' {
                push_char(&mut out, d);
                proof {
                    assert(rest.skip(2) =~= b@.skip(i as int + 2));
                    assert(out@ =~= before + seq![d]);
                    if let Some(t) = unescaped(b@.skip(i as int + 2)) {
                        assert(before + (seq![d] + t) =~= out@ + t);
                    }
                }
                i = i + 2;
            } else {
                return None;
            }
        } else if c == '"' {
            return None;
        } else {
            push_char(&mut out, c);
            proof {
                assert(rest.skip(1) =~= b@.skip(i as int + 1));
                assert(out@ =~= before + seq![c]);
                if let Some(t) = unescaped(b@.skip(i as int + 1)) {
                    assert(before + (seq![c] + t) =~= out@ + t);
                }
            }
            i = i + 1;
        }
    }
    proof {
        assert(b@.skip(n as int) =~= Seq::<char>::empty());
        assert(out@ + Seq::<char>::empty() =~= out@);
    }
    Some(out)
}

/// Reads a settings record, as `parse_record` says: the remembered value for
/// a well-formed record, an error for anything else.
pub fn parse_config(s: &str) -> (r: Result<AppConfig, String>)
    ensures
        match r {
            Ok(c) => parse_record(s@) == Some(c@),
            Err(_) => parse_record(s@) is None,
        },
{
    proof {
        reveal_strlit("{\"output_path\":null}");
        reveal_strlit("{\"output_path\":\"");
        reveal_strlit("\"}");
    }
    if str_eq(s, "{\"output_path\":null}") {
        return Ok(AppConfig { output_path: None });
    }
    let n = s.unicode_len();
    if n < 18 {
        return Err(String::from_str("the settings record is malformed"));
    }
    let pre = s.substring_char(0, 16);
    if !str_eq(pre, "{\"output_path\":\"") {
        assert(s@.take(16) =~= pre@);
        return Err(String::from_str("the settings record is malformed"));
    }
    let suf = s.substring_char(n - 2, n);
    if !str_eq(suf, "\"}") {
        assert(s@.skip(n - 2) =~= suf@);
        return Err(String::from_str("the settings record is malformed"));
    }
    assert(s@.take(16) =~= pre@);
    assert(s@.skip(n - 2) =~= suf@);
    let body = s.substring_char(16, n - 2);
    match unescape_string(body) {
        None => Err(String::from_str("the settings record is malformed")),
        Some(t) => Ok(AppConfig { output_path: Some(t) }),
    }
}

/// What a settings read returns: the empty string when no record was ever
/// written or the record remembers no path, the remembered path otherwise,
/// and an error exactly when the record text is malformed.
pub fn get_output_path(contents: Option<&str>) -> (r: Result<String, String>)
    ensures
        match contents {
            None => r matches Ok(v) && v@ == Seq::<char>::empty(),
            Some(s) => match parse_record(s@) {
                None => r is Err,
                Some(None) => r matches Ok(v) && v@ == Seq::<char>::empty(),
                Some(Some(t)) => r matches Ok(v) && v@ == t,
            },
        },
{
    match contents {
        None => Ok(String::new()),
        Some(s) => match parse_config(s) {
            Err(e) => Err(e),
            Ok(c) => match c.output_path {
                None => Ok(String::new()),
                Some(t) => Ok(t),
            },
        },
    }
}

} // verus!
