//! The on-disk configuration text: a line-based key/value document in
//! which a value is a decimal integer or a quoted, escaped string.
//! Comment and blank lines and unknown keys are ignored on read; missing
//! keys keep their defaults; a malformed line is a parse failure.

use vstd::prelude::*;
use vstd::string::StrSliceExecFns;
use vstd::string::StringExecFns;
use crate::config::{Config, ConfigV, default_config_spec};
use crate::text::{push_char, s_sub, str_eq_str, trim_spec, trim_start_spec, trim_end_spec, trim_str};

verus! {

pub open spec fn key_version() -> Seq<char> {
    seq!['v', 'e', 'r', 's', 'i', 'o', 'n']
}

pub open spec fn key_base() -> Seq<char> {
    seq!['b', 'a', 's', 'e']
}

pub open spec fn key_root() -> Seq<char> {
    seq!['r', 'o', 'o', 't']
}

pub open spec fn key_layout() -> Seq<char> {
    seq!['l', 'a', 'y', 'o', 'u', 't']
}

pub open spec fn key_open_cmd() -> Seq<char> {
    seq!['o', 'p', 'e', 'n', '_', 'c', 'm', 'd']
}

/// The ` = ` separator between a key and its value.
pub open spec fn sep() -> Seq<char> {
    seq![' ', '=', ' ']
}

pub open spec fn nl() -> Seq<char> {
    seq!['\n']
}

pub open spec fn is_digit(c: char) -> bool {
    48 <= c as u32 <= 57
}

pub open spec fn digit_val(c: char) -> nat
    recommends
        is_digit(c),
{
    ((c as u32) - 48) as nat
}

pub open spec fn all_digits(s: Seq<char>) -> bool {
    forall|i: int| 0 <= i < s.len() ==> is_digit(s[i])
}

/// The number a digit string denotes.
pub open spec fn digits_val(s: Seq<char>) -> nat
    decreases s.len(),
{
    if s.len() == 0 {
        0
    } else {
        digits_val(s.drop_last()) * 10 + digit_val(s[s.len() - 1])
    }
}

/// A decimal value line: a non-empty digit string whose value fits in
/// `u32`; anything else is malformed.
pub open spec fn parse_u32_spec(s: Seq<char>) -> Option<u32> {
    if s.len() > 0 && all_digits(s) && digits_val(s) <= u32::MAX {
        Some(digits_val(s) as u32)
    } else {
        None
    }
}

pub open spec fn digit_char(n: nat) -> char
    recommends
        n < 10,
{
    (((n + 48) as u8) as char)
}

/// The decimal rendering of `n`, most significant digit first.
pub open spec fn dec_spec(n: nat) -> Seq<char>
    decreases n,
{
    if n < 10 {
        seq![digit_char(n)]
    } else {
        dec_spec(n / 10).push(digit_char(n % 10))
    }
}

/// How one character is written inside a quoted value: backslash, quote,
/// line feed, carriage return and tab are escaped, everything else is
/// written as itself.
pub open spec fn escape_char_spec(c: char) -> Seq<char> {
    if c == '\\' {
        seq!['\\', '\\']
    } else if c == '"' {
        seq!['\\', '"']
    } else if c == '\n' {
        seq!['\\', 'n']
    } else if c == '\r' {
        seq!['\\', 'r']
    } else if c == '\t' {
        seq!['\\', 't']
    } else {
        seq![c]
    }
}

/// The escaped body of a quoted value.
pub open spec fn escape_spec(s: Seq<char>) -> Seq<char>
    decreases s.len(),
{
    if s.len() == 0 {
        Seq::<char>::empty()
    } else {
        escape_spec(s.drop_last()) + escape_char_spec(s[s.len() - 1])
    }
}

/// A quoted value: the escaped body between two quotes.
pub open spec fn quote_spec(s: Seq<char>) -> Seq<char> {
    seq!['"'] + escape_spec(s) + seq!['"']
}

/// The character an escape letter stands for; `None` for an unknown
/// escape.
pub open spec fn unescape_char(c: char) -> Option<char> {
    if c == '\\' {
        Some('\\')
    } else if c == '"' {
        Some('"')
    } else if c == 'n' {
        Some('\n')
    } else if c == 'r' {
        Some('\r')
    } else if c == 't' {
        Some('\t')
    } else {
        None
    }
}

/// Un-escaping of a quoted value's body: a raw quote or a bad escape is
/// malformed.
pub open spec fn unescape_spec(s: Seq<char>) -> Option<Seq<char>>
    decreases s.len(),
{
    if s.len() == 0 {
        Some(Seq::<char>::empty())
    } else if s[0] == '"' {
        None
    } else if s[0] == '\\' {
        if s.len() < 2 {
            None
        } else {
            match unescape_char(s[1]) {
                None => None,
                Some(d) => match unescape_spec(s.skip(2)) {
                    None => None,
                    Some(t) => Some(seq![d] + t),
                },
            }
        }
    } else {
        match unescape_spec(s.drop_first()) {
            None => None,
            Some(t) => Some(seq![s[0]] + t),
        }
    }
}

/// A quoted value parsed: quotes on both ends and a well-formed body.
pub open spec fn unquote_spec(s: Seq<char>) -> Option<Seq<char>> {
    if s.len() >= 2 && s[0] == '"' && s[s.len() - 1] == '"' {
        unescape_spec(s.subrange(1, s.len() - 1))
    } else {
        None
    }
}

/// The document split at line feeds; the separator is consumed, and a
/// trailing line feed yields a final empty line.
pub open spec fn split_lines_spec(s: Seq<char>) -> Seq<Seq<char>>
    decreases s.len(),
{
    if s.len() == 0 {
        seq![Seq::<char>::empty()]
    } else if s[0] == '\n' {
        seq![Seq::<char>::empty()] + split_lines_spec(s.drop_first())
    } else {
        let rest = split_lines_spec(s.drop_first());
        seq![seq![s[0]] + rest[0]] + rest.drop_first()
    }
}

/// A line split at its first `=`: the parts before and after it.
pub open spec fn split_eq(s: Seq<char>) -> Option<(Seq<char>, Seq<char>)>
    decreases s.len(),
{
    if s.len() == 0 {
        None
    } else if s[0] == '=' {
        Some((Seq::<char>::empty(), s.drop_first()))
    } else {
        match split_eq(s.drop_first()) {
            None => None,
            Some(kv) => Some((seq![s[0]] + kv.0, kv.1)),
        }
    }
}

/// One key/value pair applied to the configuration: the known keys set
/// their field when the value has the right form, an unknown key is
/// ignored.
pub open spec fn apply_kv_spec(c: ConfigV, k: Seq<char>, v: Seq<char>) -> Option<ConfigV> {
    if k == key_version() {
        match parse_u32_spec(v) {
            None => None,
            Some(n) => Some(ConfigV { version: n, ..c }),
        }
    } else if k == key_base() {
        match unquote_spec(v) {
            None => None,
            Some(s) => Some(ConfigV { base: s, ..c }),
        }
    } else if k == key_root() {
        match unquote_spec(v) {
            None => None,
            Some(s) => Some(ConfigV { root: s, ..c }),
        }
    } else if k == key_layout() {
        match unquote_spec(v) {
            None => None,
            Some(s) => Some(ConfigV { layout: s, ..c }),
        }
    } else if k == key_open_cmd() {
        match unquote_spec(v) {
            None => None,
            Some(s) => Some(ConfigV { open_cmd: Some(s), ..c }),
        }
    } else {
        Some(c)
    }
}

/// One line applied to the configuration: blank and comment lines are
/// skipped, otherwise the line must split at an `=` into a key and a
/// value, both trimmed.
pub open spec fn apply_line_spec(c: ConfigV, line: Seq<char>) -> Option<ConfigV> {
    let t = trim_spec(line);
    if t.len() == 0 || t[0] == '#' {
        Some(c)
    } else {
        match split_eq(t) {
            None => None,
            Some(kv) => apply_kv_spec(c, trim_spec(kv.0), trim_spec(kv.1)),
        }
    }
}

/// The lines applied in order, starting from `c`.
pub open spec fn parse_lines_spec(c: ConfigV, lines: Seq<Seq<char>>) -> Option<ConfigV>
    decreases lines.len(),
{
    if lines.len() == 0 {
        Some(c)
    } else {
        match apply_line_spec(c, lines[0]) {
            None => None,
            Some(c2) => parse_lines_spec(c2, lines.drop_first()),
        }
    }
}

/// The whole document parsed: every line applied in order to the default
/// configuration.
pub open spec fn parse_spec(s: Seq<char>) -> Option<ConfigV> {
    parse_lines_spec(default_config_spec(), split_lines_spec(s))
}

/// The serialized form: one line per field, in a fixed order, the
/// `open_cmd` line only when the field is set.
pub open spec fn config_text_spec(c: ConfigV) -> Seq<char> {
    key_version() + sep() + dec_spec(c.version as nat) + nl() + key_base() + sep() + quote_spec(
        c.base,
    ) + nl() + key_root() + sep() + quote_spec(c.root) + nl() + key_layout() + sep() + quote_spec(
        c.layout,
    ) + nl() + (match c.open_cmd {
        None => Seq::<char>::empty(),
        Some(s) => key_open_cmd() + sep() + quote_spec(s) + nl(),
    })
}

/// True when no character of `s` is a line feed.
pub open spec fn no_newline(s: Seq<char>) -> bool {
    forall|i: int| 0 <= i < s.len() ==> s[i] != '\n'
}

/// The decimal rendering consists of digits and denotes the number
/// itself.
proof fn lemma_dec_digits(n: nat)
    ensures
        all_digits(dec_spec(n)),
        digits_val(dec_spec(n)) == n,
        dec_spec(n).len() >= 1,
    decreases n,
{
    if n < 10 {
        let d = digit_char(n);
        assert(d as u32 == n + 48);
        assert(is_digit(d));
        assert(dec_spec(n) == seq![d]);
        assert(seq![d].drop_last() =~= Seq::<char>::empty());
        assert(digits_val(Seq::<char>::empty()) == 0);
        assert(digits_val(seq![d]) == digits_val(seq![d].drop_last()) * 10 + digit_val(
            seq![d][0],
        ));
        assert(digit_val(d) == n);
    } else {
        lemma_dec_digits(n / 10);
        let d = digit_char(n % 10);
        assert(d as u32 == (n % 10) + 48);
        assert(is_digit(d));
        assert(dec_spec(n).drop_last() =~= dec_spec(n / 10));
        assert(digits_val(dec_spec(n)) == digits_val(dec_spec(n / 10)) * 10 + digit_val(d));
        assert(digit_val(d) == n % 10);
        vstd::arithmetic::div_mod::lemma_fundamental_div_mod(n as int, 10);
        assert forall|i: int| 0 <= i < dec_spec(n).len() implies is_digit(
            #[trigger] dec_spec(n)[i],
        ) by {
            if i < dec_spec(n / 10).len() {
                assert(dec_spec(n)[i] == dec_spec(n / 10)[i]);
            } else {
                assert(dec_spec(n)[i] == d);
            }
        }
    }
}

/// Escaped text never contains a line feed: the line feed itself is
/// written as an escape.
proof fn lemma_escape_no_newline(s: Seq<char>)
    ensures
        no_newline(escape_spec(s)),
    decreases s.len(),
{
    if s.len() > 0 {
        lemma_escape_no_newline(s.drop_last());
        let c = s[s.len() - 1];
        let pre = escape_spec(s.drop_last());
        let ec = escape_char_spec(c);
        assert forall|i: int| 0 <= i < escape_spec(s).len() implies #[trigger] escape_spec(s)[i]
            != '\n' by {
            assert(escape_spec(s) == pre + ec);
            if i < pre.len() {
                assert(escape_spec(s)[i] == pre[i]);
            } else {
                assert(escape_spec(s)[i] == ec[i - pre.len()]);
            }
        }
    }
}

/// Splitting text whose first line is already known peels that line off.
proof fn lemma_split_lines_concat(a: Seq<char>, b: Seq<char>)
    requires
        no_newline(a),
    ensures
        split_lines_spec(a + nl() + b) == seq![a] + split_lines_spec(b),
    decreases a.len(),
{
    let s = a + nl() + b;
    if a.len() == 0 {
        assert(s[0] == '\n');
        assert(s.drop_first() =~= b);
        assert(seq![Seq::<char>::empty()] + split_lines_spec(b) =~~= seq![a] + split_lines_spec(
            b,
        ));
    } else {
        assert(s[0] == a[0]);
        assert(a[0] != '\n');
        assert(s.drop_first() =~= a.drop_first() + nl() + b);
        assert forall|j: int| 0 <= j < a.drop_first().len() implies #[trigger] a.drop_first()[j]
            != '\n' by {
            assert(a.drop_first()[j] == a[j + 1]);
        }
        lemma_split_lines_concat(a.drop_first(), b);
        let rest = split_lines_spec(s.drop_first());
        assert(rest == seq![a.drop_first()] + split_lines_spec(b));
        assert(rest[0] == a.drop_first());
        assert(rest.drop_first() =~~= split_lines_spec(b));
        assert(seq![s[0]] + rest[0] =~= a);
        assert(split_lines_spec(s) == seq![seq![s[0]] + rest[0]] + rest.drop_first());
        assert(seq![seq![s[0]] + rest[0]] + rest.drop_first() =~~= seq![a] + split_lines_spec(b));
    }
}

/// Escaping decomposed at the front instead of the back.
proof fn lemma_escape_front(s: Seq<char>)
    requires
        s.len() > 0,
    ensures
        escape_spec(s) == escape_char_spec(s[0]) + escape_spec(s.drop_first()),
    decreases s.len(),
{
    if s.len() == 1 {
        assert(s.drop_last() =~= Seq::<char>::empty());
        assert(s.drop_first() =~= Seq::<char>::empty());
        assert(escape_spec(s) == escape_spec(Seq::<char>::empty()) + escape_char_spec(s[0]));
        assert(Seq::<char>::empty() + escape_char_spec(s[0]) =~= escape_char_spec(s[0])
            + Seq::<char>::empty());
    } else {
        lemma_escape_front(s.drop_last());
        assert(s.drop_last()[0] == s[0]);
        assert(s.drop_last().drop_first() =~= s.drop_first().drop_last());
        assert(s.drop_first()[s.drop_first().len() - 1] == s[s.len() - 1]);
        assert(escape_spec(s) == escape_spec(s.drop_last()) + escape_char_spec(s[s.len() - 1]));
        assert(escape_spec(s.drop_last()) == escape_char_spec(s[0]) + escape_spec(
            s.drop_first().drop_last(),
        ));
        assert(escape_spec(s.drop_first()) == escape_spec(s.drop_first().drop_last())
            + escape_char_spec(s[s.len() - 1]));
        assert((escape_char_spec(s[0]) + escape_spec(s.drop_first().drop_last()))
            + escape_char_spec(s[s.len() - 1]) =~= escape_char_spec(s[0]) + (escape_spec(
            s.drop_first().drop_last(),
        ) + escape_char_spec(s[s.len() - 1])));
    }
}

/// Un-escaping undoes escaping exactly.
proof fn lemma_unescape_escape(s: Seq<char>)
    ensures
        unescape_spec(escape_spec(s)) == Some(s),
    decreases s.len(),
{
    if s.len() == 0 {
        assert(escape_spec(s) =~= Seq::<char>::empty());
        assert(unescape_spec(escape_spec(s)) == Some(Seq::<char>::empty()));
        assert(Seq::<char>::empty() =~= s);
    } else {
        lemma_escape_front(s);
        lemma_unescape_escape(s.drop_first());
        let c = s[0];
        let e = escape_spec(s.drop_first());
        let x = escape_char_spec(c) + e;
        assert(escape_spec(s) == x);
        if c == '\\' || c == '"' || c == '\n' || c == '\r' || c == '\t' {
            let m: char = if c == '\\' {
                '\\'
            } else if c == '"' {
                '"'
            } else if c == '\n' {
                'n'
            } else if c == '\r' {
                'r'
            } else {
                't'
            };
            assert(escape_char_spec(c) =~= seq!['\\', m]);
            assert(x.len() >= 2);
            assert(x[0] == '\\');
            assert(x[1] == m);
            assert(unescape_char(m) == Some(c));
            assert(x.skip(2) =~= e);
            assert(unescape_spec(x) == Some(seq![c] + s.drop_first()));
            assert(seq![c] + s.drop_first() =~= s);
        } else {
            assert(escape_char_spec(c) =~= seq![c]);
            assert(x[0] == c);
            assert(c != '"' && c != '\\');
            assert(x.drop_first() =~= e);
            assert(unescape_spec(x) == Some(seq![c] + s.drop_first()));
            assert(seq![c] + s.drop_first() =~= s);
        }
    }
}

/// A serialized line never contains a line feed, trims to itself, and is
/// read back as exactly its key and value.
proof fn lemma_field_line(k: Seq<char>, v: Seq<char>)
    requires
        k.len() > 0,
        !crate::is_space(k[0]),
        !crate::is_space(k[k.len() - 1]),
        k[0] != '#',
        forall|j: int| 0 <= j < k.len() ==> k[j] != '=',
        forall|j: int| 0 <= j < k.len() ==> k[j] != '\n',
        v.len() > 0,
        !crate::is_space(v[0]),
        !crate::is_space(v[v.len() - 1]),
        no_newline(v),
    ensures
        no_newline(k + sep() + v),
        forall|cc: ConfigV| #[trigger] apply_line_spec(cc, k + sep() + v) == apply_kv_spec(
            cc,
            k,
            v,
        ),
{
    let l = k + sep() + v;
    assert forall|j: int| 0 <= j < l.len() implies #[trigger] l[j] != '\n' by {
        if j < k.len() {
            assert(l[j] == k[j]);
        } else if j < k.len() + 3 {
            assert(l[j] == sep()[j - k.len()]);
        } else {
            assert(l[j] == v[j - k.len() - 3]);
        }
    }
    lemma_line_shape(k, v);
    assert forall|cc: ConfigV| #[trigger] apply_line_spec(cc, k + sep() + v) == apply_kv_spec(
        cc,
        k,
        v,
    ) by {
        assert(trim_spec(l) == l);
        assert(l[0] == k[0]);
        assert(l.len() > 0 && l[0] != '#');
        assert(split_eq(l) == Some((k + seq![' '], seq![' '] + v)));
        assert(apply_line_spec(cc, l) == apply_kv_spec(
            cc,
            trim_spec(k + seq![' ']),
            trim_spec(seq![' '] + v),
        ));
    }
}

/// Applying a first line that succeeds peels it off the fold.
proof fn lemma_parse_step(cfg: ConfigV, cfg2: ConfigV, lines: Seq<Seq<char>>)
    requires
        lines.len() > 0,
        apply_line_spec(cfg, lines[0]) == Some(cfg2),
    ensures
        parse_lines_spec(cfg, lines) == parse_lines_spec(cfg2, lines.drop_first()),
{
}

/// A serialized line trims to itself and splits into its key and value.
proof fn lemma_line_shape(k: Seq<char>, v: Seq<char>)
    requires
        k.len() > 0,
        !crate::is_space(k[0]),
        !crate::is_space(k[k.len() - 1]),
        forall|j: int| 0 <= j < k.len() ==> k[j] != '=',
        v.len() > 0,
        !crate::is_space(v[0]),
        !crate::is_space(v[v.len() - 1]),
    ensures
        trim_spec(k + sep() + v) == k + sep() + v,
        split_eq(k + sep() + v) == Some((k + seq![' '], seq![' '] + v)),
        trim_spec(k + seq![' ']) == k,
        trim_spec(seq![' '] + v) == v,
{
    let l = k + sep() + v;
    assert(l[0] == k[0]);
    assert(trim_start_spec(l) == l);
    assert(l[l.len() - 1] == v[v.len() - 1]);
    assert(trim_end_spec(l) == l);
    let i = k.len() as int + 1;
    assert(l[i] == '=');
    assert forall|j: int| 0 <= j < i implies l[j] != '=' by {
        if j < k.len() {
            assert(l[j] == k[j]);
        } else {
            assert(l[j] == ' ');
        }
    }
    lemma_split_eq_at(l, i);
    assert(l.take(i) =~= k + seq![' ']);
    assert(l.skip(i + 1) =~= seq![' '] + v);
    let ks = k + seq![' '];
    assert(ks[0] == k[0]);
    assert(trim_start_spec(ks) == ks);
    assert(ks[ks.len() - 1] == ' ');
    assert(crate::is_space(' '));
    assert(ks.drop_last() =~= k);
    assert(trim_end_spec(ks) == trim_end_spec(k));
    assert(trim_end_spec(k) == k);
    let vs = seq![' '] + v;
    assert(vs[0] == ' ');
    assert(vs.drop_first() =~= v);
    assert(trim_start_spec(vs) == trim_start_spec(v));
    assert(trim_start_spec(v) == v);
    assert(trim_end_spec(v) == v);
}

/// A quoted value always parses back to the value itself.
proof fn lemma_unquote_quote(s: Seq<char>)
    ensures
        unquote_spec(quote_spec(s)) == Some(s),
        quote_spec(s).len() >= 2,
        quote_spec(s)[0] == '"',
        quote_spec(s)[quote_spec(s).len() - 1] == '"',
        no_newline(quote_spec(s)),
{
    let q = quote_spec(s);
    lemma_escape_no_newline(s);
    lemma_unescape_escape(s);
    assert(q[0] == '"');
    assert(q[q.len() - 1] == '"');
    assert(q.subrange(1, q.len() - 1) =~= escape_spec(s));
    assert forall|i: int| 0 <= i < q.len() implies #[trigger] q[i] != '\n' by {
        if 1 <= i < q.len() - 1 {
            assert(q[i] == escape_spec(s)[i - 1]);
        }
    }
}

/// Serializing a configuration and parsing the result reproduces every
/// field exactly.
#[verifier::rlimit(60)]
pub proof fn lemma_config_round_trip(c: ConfigV)
    ensures
        parse_spec(config_text_spec(c)) == Some(c),
{
    let dv = dec_spec(c.version as nat);
    let qb = quote_spec(c.base);
    let qr = quote_spec(c.root);
    let ql = quote_spec(c.layout);
    let l1 = key_version() + sep() + dv;
    let l2 = key_base() + sep() + qb;
    let l3 = key_root() + sep() + qr;
    let l4 = key_layout() + sep() + ql;
    let text = config_text_spec(c);
    lemma_dec_digits(c.version as nat);
    lemma_unquote_quote(c.base);
    lemma_unquote_quote(c.root);
    lemma_unquote_quote(c.layout);
    assert(is_digit(dv[0]));
    assert(is_digit(dv[dv.len() - 1]));
    assert forall|j: int| 0 <= j < dv.len() implies #[trigger] dv[j] != '\n' by {
        assert(is_digit(dv[j]));
    }
    lemma_field_line(key_version(), dv);
    lemma_field_line(key_base(), qb);
    lemma_field_line(key_root(), qr);
    lemma_field_line(key_layout(), ql);
    let tail: Seq<char> = match c.open_cmd {
        None => Seq::<char>::empty(),
        Some(s) => key_open_cmd() + sep() + quote_spec(s) + nl(),
    };
    let r4 = l4 + nl() + tail;
    let r3 = l3 + nl() + r4;
    let r2 = l2 + nl() + r3;
    assert(text =~= l1 + nl() + r2);
    lemma_split_lines_concat(l1, r2);
    lemma_split_lines_concat(l2, r3);
    lemma_split_lines_concat(l3, r4);
    lemma_split_lines_concat(l4, tail);
    let tail_lines = split_lines_spec(tail);
    let s4 = seq![l4] + tail_lines;
    let s3 = seq![l3] + s4;
    let s2 = seq![l2] + s3;
    let s1 = seq![l1] + s2;
    assert(split_lines_spec(text) == s1);
    // apply the lines in order, starting from the defaults
    let c0 = default_config_spec();
    let c1 = ConfigV { version: c.version, ..c0 };
    let c2 = ConfigV { base: c.base, ..c1 };
    let c3 = ConfigV { root: c.root, ..c2 };
    let c4 = ConfigV { layout: c.layout, ..c3 };
    assert(apply_line_spec(c0, l1) == apply_kv_spec(c0, key_version(), dv));
    assert(parse_u32_spec(dv) == Some(c.version));
    assert(apply_kv_spec(c0, key_version(), dv) == Some(c1));
    assert(apply_line_spec(c1, l2) == apply_kv_spec(c1, key_base(), qb));
    assert(key_base() != key_version());
    assert(apply_kv_spec(c1, key_base(), qb) == Some(c2));
    assert(apply_line_spec(c2, l3) == apply_kv_spec(c2, key_root(), qr));
    assert(key_root() != key_version());
    assert(key_root()[0] != key_base()[0]);
    assert(key_root() != key_base());
    assert(apply_kv_spec(c2, key_root(), qr) == Some(c3));
    assert(apply_line_spec(c3, l4) == apply_kv_spec(c3, key_layout(), ql));
    assert(key_layout() != key_version());
    assert(key_layout() != key_base());
    assert(key_layout() != key_root());
    assert(apply_kv_spec(c3, key_layout(), ql) == Some(c4));
    lemma_parse_step(c0, c1, s1);
    assert(s1.drop_first() =~~= s2);
    lemma_parse_step(c1, c2, s2);
    assert(s2.drop_first() =~~= s3);
    lemma_parse_step(c2, c3, s3);
    assert(s3.drop_first() =~~= s4);
    lemma_parse_step(c3, c4, s4);
    assert(s4.drop_first() =~~= tail_lines);
    // a blank line leaves the configuration unchanged
    assert(trim_start_spec(Seq::<char>::empty()) == Seq::<char>::empty());
    assert(trim_spec(Seq::<char>::empty()).len() == 0);
    let empty_lines = seq![Seq::<char>::empty()];
    if c.open_cmd is Some {
        let s = c.open_cmd->0;
        let qs = quote_spec(s);
        let l5 = key_open_cmd() + sep() + qs;
        lemma_unquote_quote(s);
        lemma_field_line(key_open_cmd(), qs);
        assert(tail =~= l5 + nl() + Seq::<char>::empty());
        lemma_split_lines_concat(l5, Seq::<char>::empty());
        assert(tail_lines == seq![l5] + split_lines_spec(Seq::<char>::empty()));
        assert(split_lines_spec(Seq::<char>::empty()) == empty_lines);
        let c5 = ConfigV { open_cmd: Some(s), ..c4 };
        assert(apply_line_spec(c4, l5) == apply_kv_spec(c4, key_open_cmd(), qs));
        assert(key_open_cmd() != key_version());
        assert(key_open_cmd() != key_base());
        assert(key_open_cmd() != key_root());
        assert(key_open_cmd() != key_layout());
        assert(apply_kv_spec(c4, key_open_cmd(), qs) == Some(c5));
        lemma_parse_step(c4, c5, tail_lines);
        assert(tail_lines.drop_first() =~~= empty_lines);
        assert(apply_line_spec(c5, Seq::<char>::empty()) == Some(c5));
        lemma_parse_step(c5, c5, empty_lines);
        assert(empty_lines.drop_first() =~~= Seq::<Seq<char>>::empty());
        assert(parse_lines_spec(c5, Seq::<Seq<char>>::empty()) == Some(c5));
        assert(c5 =~= c);
    } else {
        assert(tail_lines == empty_lines);
        assert(apply_line_spec(c4, Seq::<char>::empty()) == Some(c4));
        lemma_parse_step(c4, c4, tail_lines);
        assert(tail_lines.drop_first() =~~= Seq::<Seq<char>>::empty());
        assert(parse_lines_spec(c4, Seq::<Seq<char>>::empty()) == Some(c4));
        assert(c4 =~= c);
    }
}

/// Appends the decimal rendering of `n`.
fn append_dec(out: &mut String, n: u32)
    ensures
        final(out)@ == old(out)@ + dec_spec(n as nat),
    decreases n,
{
    if n < 10 {
        let d: u8 = (n as u8) + 48;
        push_char(out, d as char);
        proof {
            assert(d as char == digit_char(n as nat));
            assert(old(out)@.push(digit_char(n as nat)) =~= old(out)@ + dec_spec(n as nat));
        }
    } else {
        append_dec(out, n / 10);
        let d: u8 = ((n % 10) as u8) + 48;
        push_char(out, d as char);
        proof {
            assert((n / 10) as nat == (n as nat) / 10);
            assert((n % 10) as nat == (n as nat) % 10);
            assert(d as char == digit_char((n as nat) % 10));
            assert(old(out)@ + dec_spec((n as nat) / 10).push(digit_char((n as nat) % 10)) =~= (old(
                out,
            )@ + dec_spec((n as nat) / 10)).push(digit_char((n as nat) % 10)));
        }
    }
}

/// Appends the quoted, escaped rendering of `s`.
fn append_quoted(out: &mut String, s: &str)
    ensures
        final(out)@ == old(out)@ + quote_spec(s@),
{
    push_char(out, '"');
    let n: usize = s.unicode_len();
    let mut i: usize = 0;
    proof {
        assert(s@.take(0) =~= Seq::<char>::empty());
        assert(old(out)@.push('"') =~= old(out)@ + seq!['"'] + escape_spec(s@.take(0)));
    }
    while i < n
        invariant
            i <= n,
            n == s@.len(),
            out@ == old(out)@ + seq!['"'] + escape_spec(s@.take(i as int)),
        decreases n - i,
    {
        let c = s.get_char(i);
        if c == '\\' {
            push_char(out, '\\');
            push_char(out, '\\');
        } else if c == '"' {
            push_char(out, '\\');
            push_char(out, '"');
        } else if c == '\n' {
            push_char(out, '\\');
            push_char(out, 'n');
        } else if c == '\r' {
            push_char(out, '\\');
            push_char(out, 'r');
        } else if c == '\t' {
            push_char(out, '\\');
            push_char(out, 't');
        } else {
            push_char(out, c);
        }
        proof {
            assert(s@.take(i as int + 1).drop_last() =~= s@.take(i as int));
            assert(s@.take(i as int + 1)[i as int] == c);
            assert(escape_spec(s@.take(i as int + 1)) == escape_spec(s@.take(i as int))
                + escape_char_spec(c));
            assert(out@ =~= old(out)@ + seq!['"'] + escape_spec(s@.take(i as int + 1)));
        }
        i += 1;
    }
    proof {
        assert(s@.take(n as int) =~= s@);
    }
    push_char(out, '"');
    proof {
        assert(out@ =~= old(out)@ + quote_spec(s@));
    }
}

/// A longer digit string denotes at least as large a number.
proof fn lemma_digits_val_monotone(s: Seq<char>, k: int)
    requires
        0 <= k <= s.len(),
    ensures
        digits_val(s) >= digits_val(s.take(k)),
    decreases s.len(),
{
    if k == s.len() {
        assert(s.take(k) =~= s);
    } else {
        lemma_digits_val_monotone(s.drop_last(), k);
        assert(s.drop_last().take(k) =~= s.take(k));
    }
}

/// Parses a decimal `u32` value, per [`parse_u32_spec`].
pub fn parse_u32_str(s: &str) -> (r: Option<u32>)
    ensures
        r == parse_u32_spec(s@),
{
    let n: usize = s.unicode_len();
    if n == 0 {
        return None;
    }
    let mut acc: u64 = 0;
    let mut i: usize = 0;
    proof {
        assert(s@.take(0) =~= Seq::<char>::empty());
    }
    while i < n
        invariant
            i <= n,
            0 < n == s@.len(),
            all_digits(s@.take(i as int)),
            acc == digits_val(s@.take(i as int)),
            acc <= u32::MAX,
        decreases n - i,
    {
        let c = s.get_char(i);
        let u = c as u32;
        if !(48 <= u && u <= 57) {
            proof {
                assert(!is_digit(s@[i as int]));
                assert(!all_digits(s@));
            }
            return None;
        }
        let d: u64 = (u - 48) as u64;
        let acc2: u64 = acc * 10 + d;
        proof {
            assert(s@.take(i as int + 1).drop_last() =~= s@.take(i as int));
            assert(s@.take(i as int + 1)[i as int] == c);
            assert(digits_val(s@.take(i as int + 1)) == digits_val(s@.take(i as int)) * 10
                + digit_val(c));
            assert forall|j: int| 0 <= j < i + 1 implies is_digit(
                #[trigger] s@.take(i as int + 1)[j],
            ) by {
                if j < i {
                    assert(is_digit(s@.take(i as int)[j]));
                }
            }
        }
        if acc2 > 0xffff_ffff {
            proof {
                lemma_digits_val_monotone(s@, i as int + 1);
            }
            return None;
        }
        acc = acc2;
        i += 1;
    }
    proof {
        assert(s@.take(n as int) =~= s@);
    }
    Some(acc as u32)
}

/// Parses a quoted value, per [`unquote_spec`].
pub fn unquote_str(s: &str) -> (r: Option<String>)
    ensures
        match r {
            Some(t) => unquote_spec(s@) == Some(t@),
            None => unquote_spec(s@) is None,
        },
{
    let n: usize = s.unicode_len();
    if n < 2 || s.get_char(0) != '"' || s.get_char(n - 1) != '"' {
        return None;
    }
    let ghost mid = s@.subrange(1, n as int - 1);
    let mut out = String::new();
    let mut i: usize = 1;
    proof {
        assert(mid.skip(0) =~= mid);
        assert(Seq::<char>::empty() + mid =~= mid);
    }
    while i < n - 1
        invariant
            1 <= i <= n - 1,
            n == s@.len(),
            n >= 2,
            mid == s@.subrange(1, n as int - 1),
            unescape_spec(mid.skip(i as int - 1)) is Some ==> unescape_spec(mid) == Some(
                out@ + unescape_spec(mid.skip(i as int - 1))->0,
            ),
            unescape_spec(mid.skip(i as int - 1)) is None ==> unescape_spec(mid) is None,
        decreases n - i,
    {
        let c = s.get_char(i);
        let ghost t = mid.skip(i as int - 1);
        proof {
            assert(t[0] == s@[i as int]);
            assert(t.drop_first() =~= mid.skip(i as int));
        }
        if c == '"' {
            return None;
        }
        if c == '\\' {
            if i + 1 >= n - 1 {
                proof {
                    assert(t.len() < 2);
                }
                return None;
            }
            let e = s.get_char(i + 1);
            proof {
                assert(t[1] == s@[i as int + 1]);
                assert(t.skip(2) =~= mid.skip(i as int + 1));
            }
            let d: char;
            if e == '\\' {
                d = '\\';
            } else if e == '"' {
                d = '"';
            } else if e == 'n' {
                d = '\n';
            } else if e == 'r' {
                d = '\r';
            } else if e == 't' {
                d = '\t';
            } else {
                proof {
                    assert(unescape_char(e) is None);
                }
                return None;
            }
            proof {
                assert(unescape_char(e) == Some(d));
                if unescape_spec(mid.skip(i as int + 1)) is Some {
                    assert(out@ + (seq![d] + unescape_spec(mid.skip(i as int + 1))->0) =~= out@.push(
                        d,
                    ) + unescape_spec(mid.skip(i as int + 1))->0);
                }
            }
            push_char(&mut out, d);
            i += 2;
        } else {
            proof {
                if unescape_spec(mid.skip(i as int)) is Some {
                    assert(out@ + (seq![c] + unescape_spec(mid.skip(i as int))->0) =~= out@.push(c)
                        + unescape_spec(mid.skip(i as int))->0);
                }
            }
            push_char(&mut out, c);
            i += 1;
        }
    }
    proof {
        assert(mid.skip(n as int - 2) =~= Seq::<char>::empty());
        assert(unescape_spec(mid.skip(n as int - 2)) == Some(Seq::<char>::empty()));
        assert(out@ + Seq::<char>::empty() =~= out@);
    }
    Some(out)
}

/// A split always yields at least one line.
proof fn lemma_split_lines_len(s: Seq<char>)
    ensures
        split_lines_spec(s).len() >= 1,
    decreases s.len(),
{
    if s.len() == 0 {
    } else {
        lemma_split_lines_len(s.drop_first());
    }
}

/// A partly read first line put back in front of the remaining lines.
pub open spec fn cons_first(p: Seq<char>, ls: Seq<Seq<char>>) -> Seq<Seq<char>> {
    seq![p + ls[0]] + ls.drop_first()
}

/// Splits the document into its lines, per [`split_lines_spec`].
pub fn split_lines(s: &str) -> (r: Vec<String>)
    ensures
        r.deep_view() == split_lines_spec(s@),
{
    let n: usize = s.unicode_len();
    let mut lines: Vec<String> = Vec::new();
    let mut cur = String::new();
    let mut i: usize = 0;
    proof {
        lemma_split_lines_len(s@);
        assert(s@.skip(0) =~= s@);
        assert(cons_first(Seq::<char>::empty(), split_lines_spec(s@)) =~~= split_lines_spec(s@));
        assert(lines.deep_view() + split_lines_spec(s@) =~~= split_lines_spec(s@));
    }
    while i < n
        invariant
            i <= n,
            n == s@.len(),
            split_lines_spec(s@) == lines.deep_view() + cons_first(
                cur@,
                split_lines_spec(s@.skip(i as int)),
            ),
        decreases n - i,
    {
        let c = s.get_char(i);
        let ghost t = s@.skip(i as int);
        let ghost rest = split_lines_spec(s@.skip(i as int + 1));
        proof {
            lemma_split_lines_len(s@.skip(i as int + 1));
            assert(t[0] == c);
            assert(t.drop_first() =~= s@.skip(i as int + 1));
        }
        if c == '\n' {
            proof {
                assert(split_lines_spec(t) == seq![Seq::<char>::empty()] + rest);
                assert(cons_first(cur@, split_lines_spec(t)) =~~= seq![cur@] + cons_first(
                    Seq::<char>::empty(),
                    rest,
                ));
                assert(lines.deep_view() + (seq![cur@] + cons_first(Seq::<char>::empty(), rest))
                    =~~= lines.deep_view().push(cur@) + cons_first(Seq::<char>::empty(), rest));
            }
            lines.push(cur);
            cur = String::new();
        } else {
            proof {
                assert(split_lines_spec(t) == cons_first(seq![c], rest));
                assert(cons_first(cur@, cons_first(seq![c], rest)) =~~= cons_first(
                    cur@.push(c),
                    rest,
                ));
            }
            push_char(&mut cur, c);
        }
        i += 1;
    }
    proof {
        assert(s@.skip(n as int) =~= Seq::<char>::empty());
        assert(cons_first(cur@, split_lines_spec(s@.skip(n as int))) =~~= seq![cur@]);
        assert(lines.deep_view() + seq![cur@] =~~= lines.deep_view().push(cur@));
    }
    lines.push(cur);
    lines
}

/// A copy of an optional string, equal to the original.
fn clone_opt(o: &Option<String>) -> (r: Option<String>)
    ensures
        r == *o,
{
    match o {
        Some(s) => Some(s.clone()),
        None => None,
    }
}

/// A copy of a configuration with the same view.
fn clone_config(c: &Config) -> (r: Config)
    ensures
        r@ == c@,
{
    let r = Config {
        version: c.version,
        base: c.base.clone(),
        root: c.root.clone(),
        layout: c.layout.clone(),
        open_cmd: clone_opt(&c.open_cmd),
    };
    proof {
        assert(r@ =~= c@);
    }
    r
}

/// One key/value pair applied, per [`apply_kv_spec`].
fn apply_kv(c: &Config, k: &str, v: &str) -> (r: Option<Config>)
    ensures
        match r {
            Some(c2) => apply_kv_spec(c@, k@, v@) == Some(c2@),
            None => apply_kv_spec(c@, k@, v@) is None,
        },
{
    proof {
        reveal_strlit("version");
        reveal_strlit("base");
        reveal_strlit("root");
        reveal_strlit("layout");
        reveal_strlit("open_cmd");
        assert(("version")@ =~= key_version());
        assert(("base")@ =~= key_base());
        assert(("root")@ =~= key_root());
        assert(("layout")@ =~= key_layout());
        assert(("open_cmd")@ =~= key_open_cmd());
    }
    if str_eq_str(k, "version") {
        match parse_u32_str(v) {
            Some(nv) => {
                let c2 = Config {
                    version: nv,
                    base: c.base.clone(),
                    root: c.root.clone(),
                    layout: c.layout.clone(),
                    open_cmd: clone_opt(&c.open_cmd),
                };
                proof {
                    assert(c2@ =~= (ConfigV { version: nv, ..c@ }));
                }
                Some(c2)
            },
            None => None,
        }
    } else if str_eq_str(k, "base") {
        match unquote_str(v) {
            Some(t) => {
                let ghost tv = t@;
                let c2 = Config {
                    version: c.version,
                    base: t,
                    root: c.root.clone(),
                    layout: c.layout.clone(),
                    open_cmd: clone_opt(&c.open_cmd),
                };
                proof {
                    assert(c2@ =~= (ConfigV { base: tv, ..c@ }));
                }
                Some(c2)
            },
            None => None,
        }
    } else if str_eq_str(k, "root") {
        match unquote_str(v) {
            Some(t) => {
                let ghost tv = t@;
                let c2 = Config {
                    version: c.version,
                    base: c.base.clone(),
                    root: t,
                    layout: c.layout.clone(),
                    open_cmd: clone_opt(&c.open_cmd),
                };
                proof {
                    assert(c2@ =~= (ConfigV { root: tv, ..c@ }));
                }
                Some(c2)
            },
            None => None,
        }
    } else if str_eq_str(k, "layout") {
        match unquote_str(v) {
            Some(t) => {
                let ghost tv = t@;
                let c2 = Config {
                    version: c.version,
                    base: c.base.clone(),
                    root: c.root.clone(),
                    layout: t,
                    open_cmd: clone_opt(&c.open_cmd),
                };
                proof {
                    assert(c2@ =~= (ConfigV { layout: tv, ..c@ }));
                }
                Some(c2)
            },
            None => None,
        }
    } else if str_eq_str(k, "open_cmd") {
        match unquote_str(v) {
            Some(t) => {
                let ghost tv = t@;
                let c2 = Config {
                    version: c.version,
                    base: c.base.clone(),
                    root: c.root.clone(),
                    layout: c.layout.clone(),
                    open_cmd: Some(t),
                };
                proof {
                    assert(c2@ =~= (ConfigV { open_cmd: Some(tv), ..c@ }));
                }
                Some(c2)
            },
            None => None,
        }
    } else {
        Some(clone_config(c))
    }
}

/// A line with no `=` does not split.
proof fn lemma_split_eq_none(s: Seq<char>)
    requires
        forall|j: int| 0 <= j < s.len() ==> s[j] != '=',
    ensures
        split_eq(s) is None,
    decreases s.len(),
{
    if s.len() > 0 {
        lemma_split_eq_none(s.drop_first());
    }
}

/// A line splits at its first `=` into what stands before and after it.
proof fn lemma_split_eq_at(s: Seq<char>, i: int)
    requires
        0 <= i < s.len(),
        s[i] == '=',
        forall|j: int| 0 <= j < i ==> s[j] != '=',
    ensures
        split_eq(s) == Some((s.take(i), s.skip(i + 1))),
    decreases i,
{
    if i == 0 {
        assert(s.take(0) =~= Seq::<char>::empty());
        assert(s.drop_first() =~= s.skip(1));
    } else {
        lemma_split_eq_at(s.drop_first(), i - 1);
        assert(seq![s[0]] + s.drop_first().take(i - 1) =~= s.take(i));
        assert(s.drop_first().skip(i) =~= s.skip(i + 1));
    }
}

/// One line applied, per [`apply_line_spec`].
fn apply_line(c: &Config, line: &str) -> (r: Option<Config>)
    ensures
        match r {
            Some(c2) => apply_line_spec(c@, line@) == Some(c2@),
            None => apply_line_spec(c@, line@) is None,
        },
{
    let t = trim_str(line);
    let tn: usize = t.as_str().unicode_len();
    if tn == 0 {
        return Some(clone_config(c));
    }
    if t.as_str().get_char(0) == '#' {
        return Some(clone_config(c));
    }
    let mut i: usize = 0;
    while i < tn && t.as_str().get_char(i) != '='
        invariant
            i <= tn,
            tn == t@.len(),
            forall|j: int| 0 <= j < i ==> t@[j] != '=',
        decreases tn - i,
    {
        i += 1;
    }
    if i == tn {
        proof {
            lemma_split_eq_none(t@);
        }
        return None;
    }
    proof {
        lemma_split_eq_at(t@, i as int);
    }
    let key_part = s_sub(t.as_str(), 0, i);
    let val_part = s_sub(t.as_str(), i + 1, tn);
    let key = trim_str(key_part.as_str());
    let val = trim_str(val_part.as_str());
    proof {
        assert(t@.take(i as int) =~= key_part@);
        assert(t@.skip(i as int + 1) =~= val_part@);
    }
    apply_kv(c, key.as_str(), val.as_str())
}

impl Config {
    /// Parses the on-disk text, per [`parse_spec`]; `None` when the
    /// document is malformed.
    pub fn parse(text: &str) -> (r: Option<Config>)
        ensures
            match r {
                Some(c) => parse_spec(text@) == Some(c@),
                None => parse_spec(text@) is None,
            },
    {
        let lines = split_lines(text);
        let mut cfg = Config::default();
        let mut i: usize = 0;
        let n: usize = lines.len();
        proof {
            assert(lines.deep_view().skip(0) =~~= lines.deep_view());
        }
        while i < n
            invariant
                i <= n,
                n == lines@.len(),
                lines.deep_view() == split_lines_spec(text@),
                parse_lines_spec(default_config_spec(), split_lines_spec(text@))
                    == parse_lines_spec(cfg@, lines.deep_view().skip(i as int)),
            decreases n - i,
        {
            let ghost lv = lines.deep_view().skip(i as int);
            proof {
                assert(lv[0] == lines.deep_view()[i as int]);
                assert(lines.deep_view()[i as int] == lines@[i as int]@);
                assert(lv.drop_first() =~~= lines.deep_view().skip(i as int + 1));
            }
            let line = &lines[i];
            match apply_line(&cfg, line.as_str()) {
                Some(c2) => {
                    cfg = c2;
                },
                None => {
                    return None;
                },
            }
            i += 1;
        }
        proof {
            assert(lines.deep_view().skip(n as int) =~~= Seq::<Seq<char>>::empty());
        }
        Some(cfg)
    }
}

impl Config {
    /// Serializes the configuration to its on-disk text, per
    /// [`config_text_spec`].
    pub fn to_text(&self) -> (r: String)
        ensures
            r@ == config_text_spec(self@),
    {
        proof {
            reveal_strlit("version = ");
            reveal_strlit("base = ");
            reveal_strlit("root = ");
            reveal_strlit("layout = ");
            reveal_strlit("open_cmd = ");
            reveal_strlit("\n");
            assert(("version = ")@ =~= key_version() + sep());
            assert(("base = ")@ =~= key_base() + sep());
            assert(("root = ")@ =~= key_root() + sep());
            assert(("layout = ")@ =~= key_layout() + sep());
            assert(("open_cmd = ")@ =~= key_open_cmd() + sep());
            assert(("\n")@ =~= nl());
        }
        let mut out = String::new();
        out.append("version = ");
        append_dec(&mut out, self.version);
        out.append("\n");
        out.append("base = ");
        append_quoted(&mut out, self.base.as_str());
        out.append("\n");
        out.append("root = ");
        append_quoted(&mut out, self.root.as_str());
        out.append("\n");
        out.append("layout = ");
        append_quoted(&mut out, self.layout.as_str());
        out.append("\n");
        match &self.open_cmd {
            Some(s) => {
                out.append("open_cmd = ");
                append_quoted(&mut out, s.as_str());
                out.append("\n");
            },
            None => {},
        }
        proof {
            assert(out@ =~= config_text_spec(self@));
        }
        out
    }
}

} // verus!
