//! Character-sequence helpers shared by the configuration and repository
//! modules: trimming, suffix handling, lower-casing, placeholder
//! replacement, and path joining over `/`-separated path strings.

use vstd::prelude::*;
use vstd::string::StrSliceExecFns;
use vstd::string::StringExecFns;

verus! {

/// Leading whitespace removed.
pub open spec fn trim_start_spec(s: Seq<char>) -> Seq<char>
    decreases s.len(),
{
    if s.len() > 0 && crate::is_space(s[0]) {
        trim_start_spec(s.drop_first())
    } else {
        s
    }
}

/// Trailing whitespace removed.
pub open spec fn trim_end_spec(s: Seq<char>) -> Seq<char>
    decreases s.len(),
{
    if s.len() > 0 && crate::is_space(s[s.len() - 1]) {
        trim_end_spec(s.drop_last())
    } else {
        s
    }
}

/// Whitespace removed from both ends.
pub open spec fn trim_spec(s: Seq<char>) -> Seq<char> {
    trim_end_spec(trim_start_spec(s))
}

/// Trailing `/` characters removed.
pub open spec fn strip_slashes_spec(s: Seq<char>) -> Seq<char>
    decreases s.len(),
{
    if s.len() > 0 && s[s.len() - 1] == '/' {
        strip_slashes_spec(s.drop_last())
    } else {
        s
    }
}

/// The suffix of `p` after its last `/`; `p` itself when it has none,
/// empty when `p` ends with `/`.
pub open spec fn after_last_slash(p: Seq<char>) -> Seq<char>
    decreases p.len(),
{
    if p.len() == 0 {
        p
    } else if p[p.len() - 1] == '/' {
        Seq::<char>::empty()
    } else {
        after_last_slash(p.drop_last()).push(p[p.len() - 1])
    }
}

/// Path joining over `/`-separated strings, as a path push does it: an
/// absolute `b` replaces `a`; otherwise the two are joined with a single
/// separator.
pub open spec fn join_spec(a: Seq<char>, b: Seq<char>) -> Seq<char> {
    if b.len() > 0 && b[0] == '/' {
        b
    } else if a.len() == 0 {
        b
    } else if a[a.len() - 1] == '/' {
        a + b
    } else {
        a + seq!['/'] + b
    }
}

/// True when `c` is an ASCII upper-case letter.
pub open spec fn is_upper(c: char) -> bool {
    65 <= c as u32 && c as u32 <= 90
}

/// ASCII lower-casing of one character.
pub open spec fn lower_char(c: char) -> char {
    if is_upper(c) {
        (((c as u8) + 32) as char)
    } else {
        c
    }
}

/// ASCII lower-casing of a whole sequence.
pub open spec fn lower_seq(s: Seq<char>) -> Seq<char> {
    s.map_values(|c: char| lower_char(c))
}

/// Every occurrence of `pat` in `s` replaced by `rep`, scanning left to
/// right without overlap.
pub open spec fn replace_spec(s: Seq<char>, pat: Seq<char>, rep: Seq<char>) -> Seq<char>
    decreases s.len(),
        when pat.len() > 0
{
    if s.len() < pat.len() {
        s
    } else if s.take(pat.len() as int) == pat {
        rep + replace_spec(s.skip(pat.len() as int), pat, rep)
    } else {
        seq![s[0]] + replace_spec(s.drop_first(), pat, rep)
    }
}

/// Relies on std's `String::push`: appends exactly the one character.
#[verifier::external_body]
pub(crate) fn push_char(s: &mut String, c: char)
    ensures
        final(s)@ == old(s)@.push(c),
{
    s.push(c);
}

/// Executable form of [`crate::is_space`].
pub fn is_space_exec(c: char) -> (b: bool)
    ensures
        b == crate::is_space(c),
{
    let u = c as u32;
    u == 32 || u == 9 || u == 10 || u == 13
}

/// Character-wise string equality.
pub fn str_eq_str(a: &str, b: &str) -> (r: bool)
    ensures
        r == (a@ == b@),
{
    let n: usize = a.unicode_len();
    if n != b.unicode_len() {
        return false;
    }
    let mut i: usize = 0;
    while i < n
        invariant
            i <= n,
            n == a@.len(),
            n == b@.len(),
            forall|j: int| 0 <= j < i ==> a@[j] == b@[j],
        decreases n - i,
    {
        if a.get_char(i) != b.get_char(i) {
            return false;
        }
        i += 1;
    }
    proof {
        assert(a@ =~= b@);
    }
    true
}

/// Whitespace removed from both ends of `s`.
pub fn trim_str(s: &str) -> (r: String)
    ensures
        r@ == trim_spec(s@),
{
    let n: usize = s.unicode_len();
    let mut start: usize = 0;
    proof {
        assert(s@.skip(0) =~= s@);
    }
    while start < n && is_space_exec(s.get_char(start))
        invariant
            start <= n,
            n == s@.len(),
            trim_start_spec(s@) == trim_start_spec(s@.skip(start as int)),
        decreases n - start,
    {
        proof {
            let t = s@.skip(start as int);
            assert(t.len() > 0 && crate::is_space(t[0]));
            assert(t.drop_first() =~= s@.skip(start as int + 1));
        }
        start += 1;
    }
    proof {
        let t = s@.skip(start as int);
        assert(trim_start_spec(s@) == t);
        assert(t =~= s@.subrange(start as int, n as int));
    }
    let mut end: usize = n;
    while end > start && is_space_exec(s.get_char(end - 1))
        invariant
            start <= end <= n,
            n == s@.len(),
            trim_start_spec(s@) == s@.subrange(start as int, n as int),
            trim_end_spec(s@.subrange(start as int, n as int)) == trim_end_spec(
                s@.subrange(start as int, end as int),
            ),
        decreases end,
    {
        proof {
            let t = s@.subrange(start as int, end as int);
            assert(t.len() > 0 && crate::is_space(t[t.len() - 1]));
            assert(t.drop_last() =~= s@.subrange(start as int, end as int - 1));
        }
        end -= 1;
    }
    proof {
        let t = s@.subrange(start as int, end as int);
        assert(trim_end_spec(t) == t);
        assert(trim_spec(s@) == t);
    }
    s.substring_char(start, end).to_owned()
}

/// The two paths joined, per [`join_spec`].
pub fn join_path(a: &str, b: &str) -> (r: String)
    ensures
        r@ == join_spec(a@, b@),
{
    let bn: usize = b.unicode_len();
    if bn > 0 && b.get_char(0) == '/' {
        return b.to_owned();
    }
    let an: usize = a.unicode_len();
    if an == 0 {
        return b.to_owned();
    }
    let mut r = a.to_owned();
    if a.get_char(an - 1) != '/' {
        r.append("/");
        proof {
            reveal_strlit("/");
            assert(("/")@ =~= seq!['/']);
        }
    }
    r.append(b);
    r
}

/// ASCII lower-casing of `s`.
pub fn to_lower_str(s: &str) -> (r: String)
    ensures
        r@ == lower_seq(s@),
{
    let n: usize = s.unicode_len();
    let mut out = String::new();
    let mut i: usize = 0;
    while i < n
        invariant
            i <= n,
            n == s@.len(),
            out@ == lower_seq(s@.take(i as int)),
        decreases n - i,
    {
        let c = s.get_char(i);
        let l: char = if 65 <= c as u32 && c as u32 <= 90 {
            ((c as u8) + 32) as char
        } else {
            c
        };
        proof {
            assert(l == lower_char(c));
        }
        push_char(&mut out, l);
        proof {
            assert(lower_seq(s@.take(i as int + 1)) =~= lower_seq(s@.take(i as int)).push(
                lower_char(s@[i as int]),
            ));
        }
        i += 1;
    }
    proof {
        assert(s@.take(n as int) =~= s@);
    }
    out
}

/// True when `pat` occurs in `s` at position `i`.
fn matches_at(s: &str, i: usize, pat: &str) -> (r: bool)
    requires
        i <= s@.len(),
    ensures
        r == (i + pat@.len() <= s@.len() && s@.subrange(i as int, i as int + pat@.len()) == pat@),
{
    let m: usize = pat.unicode_len();
    let n: usize = s.unicode_len();
    if m > n - i {
        return false;
    }
    let mut j: usize = 0;
    while j < m
        invariant
            j <= m,
            m == pat@.len(),
            n == s@.len(),
            i + m <= n,
            forall|k: int| 0 <= k < j ==> s@[i + k] == pat@[k],
        decreases m - j,
    {
        if s.get_char(i + j) != pat.get_char(j) {
            proof {
                assert(s@.subrange(i as int, i as int + pat@.len())[j as int] != pat@[j as int]);
            }
            return false;
        }
        j += 1;
    }
    proof {
        assert(s@.subrange(i as int, i as int + pat@.len()) =~= pat@);
    }
    true
}

/// Every occurrence of `pat` in `s` replaced by `rep`.
pub fn replace_str(s: &str, pat: &str, rep: &str) -> (r: String)
    requires
        pat@.len() > 0,
    ensures
        r@ == replace_spec(s@, pat@, rep@),
{
    let n: usize = s.unicode_len();
    let m: usize = pat.unicode_len();
    let mut out = String::new();
    let mut i: usize = 0;
    proof {
        assert(s@.skip(0) =~= s@);
        assert(Seq::<char>::empty() + replace_spec(s@, pat@, rep@) =~= replace_spec(
            s@,
            pat@,
            rep@,
        ));
    }
    while i < n
        invariant
            i <= n,
            n == s@.len(),
            m == pat@.len(),
            m > 0,
            replace_spec(s@, pat@, rep@) == out@ + replace_spec(s@.skip(i as int), pat@, rep@),
        decreases n - i,
    {
        let ghost t = s@.skip(i as int);
        if matches_at(s, i, pat) {
            proof {
                assert(t.take(m as int) =~= s@.subrange(i as int, i as int + m));
                assert(t.skip(m as int) =~= s@.skip(i as int + m));
                assert(replace_spec(t, pat@, rep@) == rep@ + replace_spec(
                    s@.skip(i as int + m),
                    pat@,
                    rep@,
                ));
            }
            out.append(rep);
            i += m;
        } else {
            proof {
                if t.len() >= m {
                    assert(t.take(m as int) =~= s@.subrange(i as int, i as int + m));
                    assert(t.take(m as int) != pat@);
                    assert(t.drop_first() =~= s@.skip(i as int + 1));
                    assert(replace_spec(t, pat@, rep@) == seq![t[0]] + replace_spec(
                        s@.skip(i as int + 1),
                        pat@,
                        rep@,
                    ));
                } else {
                    assert(replace_spec(t, pat@, rep@) == t);
                    let u = s@.skip(i as int + 1);
                    assert(u.len() < m);
                    assert(replace_spec(u, pat@, rep@) == u);
                    assert(t =~= seq![t[0]] + u);
                }
                assert((out@ + replace_spec(t, pat@, rep@)) =~= out@.push(s@[i as int])
                    + replace_spec(s@.skip(i as int + 1), pat@, rep@));
            }
            push_char(&mut out, s.get_char(i));
            i += 1;
        }
    }
    proof {
        assert(s@.skip(n as int) =~= Seq::<char>::empty());
        assert(replace_spec(s@.skip(n as int), pat@, rep@) == s@.skip(n as int));
        assert(out@ + s@.skip(n as int) =~= out@);
    }
    out
}

/// The suffix of `p` after its last `/`, per [`after_last_slash`].
pub fn after_last_slash_str(p: &str) -> (r: String)
    ensures
        r@ == after_last_slash(p@),
{
    let n: usize = p.unicode_len();
    let mut end: usize = n;
    proof {
        assert(p@.take(n as int) =~= p@);
        assert(p@.subrange(n as int, n as int) =~= Seq::<char>::empty());
        assert(after_last_slash(p@) + Seq::<char>::empty() =~= after_last_slash(p@));
    }
    while end > 0 && p.get_char(end - 1) != '/'
        invariant
            end <= n,
            n == p@.len(),
            after_last_slash(p@) == after_last_slash(p@.take(end as int)) + p@.subrange(
                end as int,
                n as int,
            ),
        decreases end,
    {
        proof {
            let t = p@.take(end as int);
            assert(t[t.len() - 1] != '/');
            assert(t.drop_last() =~= p@.take(end as int - 1));
            assert(after_last_slash(t) == after_last_slash(p@.take(end as int - 1)).push(
                p@[end as int - 1],
            ));
            assert(after_last_slash(p@.take(end as int - 1)).push(p@[end as int - 1]) + p@.subrange(
                end as int,
                n as int,
            ) =~= after_last_slash(p@.take(end as int - 1)) + p@.subrange(end as int - 1, n as int));
        }
        end -= 1;
    }
    proof {
        let t = p@.take(end as int);
        assert(after_last_slash(t) =~= Seq::<char>::empty());
        assert(Seq::<char>::empty() + p@.subrange(end as int, n as int) =~= p@.subrange(
            end as int,
            n as int,
        ));
    }
    s_sub(p, end, n)
}

/// The substring of `s` between the two character positions, as an owned
/// string.
pub fn s_sub(s: &str, from: usize, to: usize) -> (r: String)
    requires
        from <= to <= s@.len(),
    ensures
        r@ == s@.subrange(from as int, to as int),
{
    s.substring_char(from, to).to_owned()
}

/// Trailing `/` characters removed from `s`.
pub fn strip_slashes_str(s: &str) -> (r: String)
    ensures
        r@ == strip_slashes_spec(s@),
{
    let n: usize = s.unicode_len();
    let mut end: usize = n;
    proof {
        assert(s@.take(n as int) =~= s@);
    }
    while end > 0 && s.get_char(end - 1) == '/'
        invariant
            end <= n,
            n == s@.len(),
            strip_slashes_spec(s@) == strip_slashes_spec(s@.take(end as int)),
        decreases end,
    {
        proof {
            let t = s@.take(end as int);
            assert(t.len() > 0 && t[t.len() - 1] == '/');
            assert(t.drop_last() =~= s@.take(end as int - 1));
        }
        end -= 1;
    }
    proof {
        let t = s@.take(end as int);
        assert(strip_slashes_spec(t) == t);
    }
    s_sub(s, 0, end)
}

/// The result of `trim_start` never begins with whitespace.
pub(crate) proof fn lemma_trim_start_no_leading(s: Seq<char>)
    ensures
        trim_start_spec(s).len() == 0 || !crate::is_space(trim_start_spec(s)[0]),
    decreases s.len(),
{
    if s.len() > 0 && crate::is_space(s[0]) {
        lemma_trim_start_no_leading(s.drop_first());
    }
}

/// `trim_end` yields a prefix of its input.
pub(crate) proof fn lemma_trim_end_prefix(s: Seq<char>)
    ensures
        trim_end_spec(s).len() <= s.len(),
        trim_end_spec(s) == s.take(trim_end_spec(s).len() as int),
    decreases s.len(),
{
    if s.len() > 0 && crate::is_space(s[s.len() - 1]) {
        lemma_trim_end_prefix(s.drop_last());
        assert(s.drop_last().take(trim_end_spec(s).len() as int) =~= s.take(
            trim_end_spec(s).len() as int,
        ));
    } else {
        assert(s.take(s.len() as int) =~= s);
    }
}

/// The shape of ASCII lower-casing: an upper-case letter moves down by
/// 32 code points, everything else is unchanged.
pub(crate) proof fn lemma_lower_char_shape(c: char)
    ensures
        is_upper(c) ==> lower_char(c) as u32 == (c as u32) + 32,
        !is_upper(c) ==> lower_char(c) == c,
{
    if is_upper(c) {
        let r: char = ((c as u8) + 32) as char;
        assert(r as u32 == (c as u32) + 32);
    }
}

/// Lower-casing touches only upper-case letters, so it keeps length and
/// preserves, position by position, whether a character is whitespace.
pub(crate) proof fn lemma_lower_preserves_non_space(s: Seq<char>)
    ensures
        lower_seq(s).len() == s.len(),
        forall|i: int|
            0 <= i < s.len() ==> crate::is_space(lower_seq(s)[i]) == crate::is_space(s[i]),
{
    assert forall|i: int|
        0 <= i < s.len() implies crate::is_space(lower_seq(s)[i]) == crate::is_space(
        s[i],
    ) by {
        let c = s[i];
        assert(lower_seq(s)[i] == lower_char(c));
        lemma_lower_char_shape(c);
    }
}

/// ASCII lower-casing is idempotent.
pub(crate) proof fn lemma_lower_idempotent(s: Seq<char>)
    ensures
        lower_seq(lower_seq(s)) == lower_seq(s),
{
    assert forall|i: int|
        0 <= i < s.len() implies lower_seq(lower_seq(s))[i] == lower_seq(s)[i] by {
        let c = s[i];
        assert(lower_seq(s)[i] == lower_char(c));
        lemma_lower_char_shape(c);
        lemma_lower_char_shape(lower_char(c));
    }
    assert(lower_seq(lower_seq(s)) =~= lower_seq(s));
}

} // verus!
