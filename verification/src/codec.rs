//! The structured configuration format: a compact JSON shape that mirrors
//! the data model, produced and consumed by the engine itself so that a
//! rule set can be persisted and loaded again. A document this decoder
//! accepts is exactly the encoding of the configuration it returns, so
//! re-encoding reproduces the document verbatim.

use vstd::prelude::*;
use vstd::string::StrSliceExecFns;
use vstd::string::StringExecFns;
use crate::condition::Condition;
use crate::condition::push_char;
use crate::config::Config;
use crate::error::Error;
use crate::matcher::Matcher;
use crate::matcher::MatcherKind;
use crate::matcher::ReMatcher;
use crate::matchresult::BasicMatchResult;
use crate::matchresult::MatchResult;

verus! {

/// The escape for one character inside an encoded string: quote,
/// backslash, newline, tab and carriage return are escaped, every other
/// character stands for itself.
pub open spec fn esc_char(c: char) -> Seq<char> {
    if c == '"' {
        seq!['\\', '"']
    } else if c == '\\' {
        seq!['\\', '\\']
    } else if c == '\n' {
        seq!['\\', 'n']
    } else if c == '\t' {
        seq!['\\', 't']
    } else if c == '\r' {
        seq!['\\', 'r']
    } else {
        seq![c]
    }
}

/// The body of an encoded string: each character escaped in turn.
pub open spec fn esc(s: Seq<char>) -> Seq<char>
    decreases s.len(),
{
    if s.len() == 0 {
        Seq::<char>::empty()
    } else {
        esc_char(s[0]) + esc(s.skip(1))
    }
}

/// An encoded string: the escaped body between double quotes.
pub open spec fn enc_string(s: Seq<char>) -> Seq<char> {
    seq!['"'] + esc(s) + seq!['"']
}

/// An encoded boolean.
pub open spec fn enc_bool(b: bool) -> Seq<char> {
    if b {
        "true"@
    } else {
        "false"@
    }
}

/// An encoded leaf predicate.
pub open spec fn enc_kind(k: MatcherKind) -> Seq<char> {
    match k {
        MatcherKind::Re(re) => "{\"Re\":{\"expr\":"@ + enc_string(re.expr@) + "}}"@,
        MatcherKind::AlwaysTrue => "\"AlwaysTrue\""@,
        MatcherKind::AlwaysFalse => "\"AlwaysFalse\""@,
    }
}

/// An encoded matcher node.
pub open spec fn enc_matcher(m: Matcher) -> Seq<char>
    decreases m, 0nat, 0nat,
{
    "{\"kind\":"@ + enc_kind(m.kind) + ",\"or\":"@ + enc_matcher_list(m.or@) + ",\"and\":"@
        + enc_matcher_list(m.and@) + ",\"not\":"@ + enc_bool(m.not) + "}"@
}

/// An encoded list of matchers: the elements between brackets, separated
/// by commas.
pub open spec fn enc_matcher_list(ms: Seq<Matcher>) -> Seq<char>
    decreases ms, 2nat, 0nat,
{
    seq!['['] + enc_matchers_from(ms, 0) + seq![']']
}

/// The encoded elements of a matcher list from index `i` on, with a comma
/// between any two of them.
pub open spec fn enc_matchers_from(ms: Seq<Matcher>, i: int) -> Seq<char>
    decreases ms, 1nat, ms.len() - i,
{
    if i < 0 || i >= ms.len() {
        Seq::<char>::empty()
    } else if i + 1 == ms.len() {
        enc_matcher(ms[i])
    } else {
        enc_matcher(ms[i]) + seq![','] + enc_matchers_from(ms, i + 1)
    }
}

/// An encoded match result.
pub open spec fn enc_result(r: MatchResult) -> Seq<char> {
    match r {
        MatchResult::Basic(b) => "{\"Basic\":{\"message\":"@ + enc_string(b.message@) + "}}"@,
    }
}

/// An encoded condition; its else-chain is encoded in place, `null` when
/// absent.
pub open spec fn enc_cond(c: Condition) -> Seq<char>
    decreases c,
{
    "{\"if_match\":"@ + enc_matcher(c.if_match) + ",\"then_result\":"@ + enc_result(
        c.then_result,
    ) + ",\"output_input\":"@ + enc_bool(c.output_input) + ",\"else_then\":"@ + (match c
        .else_then {
        Option::None => "null"@,
        Option::Some(e) => enc_cond(*e),
    }) + "}"@
}

/// The encoded elements of a condition list from index `i` on.
pub open spec fn enc_conds_from(cs: Seq<Condition>, i: int) -> Seq<char>
    decreases cs.len() - i,
{
    if i < 0 || i >= cs.len() {
        Seq::<char>::empty()
    } else if i + 1 == cs.len() {
        enc_cond(cs[i])
    } else {
        enc_cond(cs[i]) + seq![','] + enc_conds_from(cs, i + 1)
    }
}

/// An encoded list of conditions.
pub open spec fn enc_cond_list(cs: Seq<Condition>) -> Seq<char> {
    seq!['['] + enc_conds_from(cs, 0) + seq![']']
}

/// An encoded configuration: the whole document.
pub open spec fn enc_config(c: Config) -> Seq<char> {
    "{\"conditions\":"@ + enc_cond_list(c.conditions@) + "}"@
}

/// Appends the encoding of `s` as a quoted, escaped string.
fn write_string(out: &mut String, s: &str)
    ensures
        final(out)@ == old(out)@ + enc_string(s@),
{
    let ghost entry = out@;
    push_char(out, '"');
    let n = s.unicode_len();
    let mut i: usize = 0;
    proof {
        assert(s@.skip(0) =~= s@);
        assert(out@ + esc(s@) =~= entry + seq!['"'] + esc(s@));
    }
    while i < n
        invariant
            n == s@.len(),
            i <= n,
            out@ + esc(s@.skip(i as int)) == entry + seq!['"'] + esc(s@),
        decreases n - i,
    {
        let ghost prev = out@;
        let ghost rest = s@.skip(i as int);
        let c = s.get_char(i);
        proof {
            assert(rest[0] == c);
            assert(rest.skip(1) =~= s@.skip(i + 1));
        }
        if c == '"' {
            push_char(out, '\\');
            push_char(out, '"');
        } else if c == '\\' {
            push_char(out, '\\');
            push_char(out, '\\');
        } else if c == '\n' {
            push_char(out, '\\');
            push_char(out, 'n');
        } else if c == '\t' {
            push_char(out, '\\');
            push_char(out, 't');
        } else if c == '\r' {
            push_char(out, '\\');
            push_char(out, 'r');
        } else {
            push_char(out, c);
        }
        i = i + 1;
        proof {
            assert(out@ =~= prev + esc_char(c));
            assert(prev + esc_char(c) + esc(s@.skip(i as int)) =~= prev + (esc_char(c) + esc(
                s@.skip(i as int),
            )));
        }
    }
    proof {
        assert(s@.skip(n as int) =~= Seq::<char>::empty());
        assert(out@ + esc(Seq::<char>::empty()) =~= out@);
    }
    push_char(out, '"');
    proof {
        assert(out@ =~= entry + enc_string(s@));
    }
}

/// Appends the encoding of a boolean.
fn write_bool(out: &mut String, b: bool)
    ensures
        final(out)@ == old(out)@ + enc_bool(b),
{
    if b {
        out.append("true");
    } else {
        out.append("false");
    }
}

/// Appends the encoding of a leaf predicate.
fn write_kind(out: &mut String, k: &MatcherKind)
    ensures
        final(out)@ == old(out)@ + enc_kind(*k),
{
    let ghost entry = out@;
    match k {
        MatcherKind::Re(re) => {
            out.append("{\"Re\":{\"expr\":");
            write_string(out, re.expr.as_str());
            out.append("}}");
            proof {
                assert(out@ =~= entry + enc_kind(*k));
            }
        },
        MatcherKind::AlwaysTrue => {
            out.append("\"AlwaysTrue\"");
        },
        MatcherKind::AlwaysFalse => {
            out.append("\"AlwaysFalse\"");
        },
    }
}

/// Appends the encoding of a matcher node.
fn write_matcher(out: &mut String, m: &Matcher)
    ensures
        final(out)@ == old(out)@ + enc_matcher(*m),
    decreases *m, 1nat,
{
    let ghost entry = out@;
    out.append("{\"kind\":");
    write_kind(out, &m.kind);
    out.append(",\"or\":");
    write_matcher_list(out, &m.or);
    out.append(",\"and\":");
    write_matcher_list(out, &m.and);
    out.append(",\"not\":");
    write_bool(out, m.not);
    out.append("}");
    proof {
        assert(out@ =~= entry + enc_matcher(*m));
    }
}

/// Appends the encoding of a matcher list.
fn write_matcher_list(out: &mut String, ms: &Vec<Matcher>)
    ensures
        final(out)@ == old(out)@ + enc_matcher_list(ms@),
    decreases ms@, 0nat,
{
    let ghost entry = out@;
    push_char(out, '[');
    let mut i: usize = 0;
    while i < ms.len()
        invariant
            i <= ms@.len(),
            out@ + enc_matchers_from(ms@, i as int) == entry + seq!['['] + enc_matchers_from(
                ms@,
                0,
            ),
        decreases ms@.len() - i,
    {
        let ghost prev = out@;
        proof {
            assert(decreases_to!(ms@ => ms@[i as int]));
        }
        write_matcher(out, &ms[i]);
        if i + 1 < ms.len() {
            push_char(out, ',');
            proof {
                assert(out@ =~= prev + (enc_matcher(ms@[i as int]) + seq![',']));
                assert(prev + (enc_matcher(ms@[i as int]) + seq![',']) + enc_matchers_from(
                    ms@,
                    i + 1,
                ) =~= prev + (enc_matcher(ms@[i as int]) + seq![','] + enc_matchers_from(
                    ms@,
                    i + 1,
                )));
            }
        } else {
            proof {
                assert(out@ + enc_matchers_from(ms@, i + 1) =~= out@);
            }
        }
        i = i + 1;
    }
    proof {
        assert(out@ + enc_matchers_from(ms@, ms@.len() as int) =~= out@);
    }
    push_char(out, ']');
    proof {
        assert(out@ =~= entry + enc_matcher_list(ms@));
    }
}

/// Appends the encoding of a match result.
fn write_result(out: &mut String, r: &MatchResult)
    ensures
        final(out)@ == old(out)@ + enc_result(*r),
{
    let ghost entry = out@;
    match r {
        MatchResult::Basic(b) => {
            out.append("{\"Basic\":{\"message\":");
            write_string(out, b.message.as_str());
            out.append("}}");
            proof {
                assert(out@ =~= entry + enc_result(*r));
            }
        },
    }
}

/// Appends the encoding of a condition chain.
#[verifier::rlimit(100)]
#[verifier::spinoff_prover]
fn write_cond(out: &mut String, c: &Condition)
    ensures
        final(out)@ == old(out)@ + enc_cond(*c),
    decreases *c,
{
    let ghost entry = out@;
    out.append("{\"if_match\":");
    write_matcher(out, &c.if_match);
    out.append(",\"then_result\":");
    write_result(out, &c.then_result);
    out.append(",\"output_input\":");
    write_bool(out, c.output_input);
    out.append(",\"else_then\":");
    match &c.else_then {
        Option::None => {
            out.append("null");
        },
        Option::Some(e) => {
            write_cond(out, e);
        },
    }
    out.append("}");
    proof {
        assert(out@ =~= entry + enc_cond(*c));
    }
}

/// Appends the encoding of a condition list.
fn write_cond_list(out: &mut String, cs: &Vec<Condition>)
    ensures
        final(out)@ == old(out)@ + enc_cond_list(cs@),
{
    let ghost entry = out@;
    push_char(out, '[');
    let mut i: usize = 0;
    while i < cs.len()
        invariant
            i <= cs@.len(),
            out@ + enc_conds_from(cs@, i as int) == entry + seq!['['] + enc_conds_from(cs@, 0),
        decreases cs@.len() - i,
    {
        let ghost prev = out@;
        write_cond(out, &cs[i]);
        if i + 1 < cs.len() {
            push_char(out, ',');
            proof {
                assert(out@ =~= prev + (enc_cond(cs@[i as int]) + seq![',']));
                assert(prev + (enc_cond(cs@[i as int]) + seq![',']) + enc_conds_from(cs@, i + 1)
                    =~= prev + (enc_cond(cs@[i as int]) + seq![','] + enc_conds_from(
                    cs@,
                    i + 1,
                )));
            }
        } else {
            proof {
                assert(out@ + enc_conds_from(cs@, i + 1) =~= out@);
            }
        }
        i = i + 1;
    }
    proof {
        assert(out@ + enc_conds_from(cs@, cs@.len() as int) =~= out@);
    }
    push_char(out, ']');
    proof {
        assert(out@ =~= entry + enc_cond_list(cs@));
    }
}

impl Config {
    /// Serializes the configuration to its structured document, exactly
    /// the encoding that `enc_config` describes.
    pub fn to_json(&self) -> (s: String)
        ensures
            s@ == enc_config(*self),
    {
        let mut out = String::new();
        out.append("{\"conditions\":");
        write_cond_list(&mut out, &self.conditions);
        out.append("}");
        proof {
            assert(out@ =~= enc_config(*self));
        }
        out
    }
}

/// The characters of a string, one by one.
fn to_chars(s: &str) -> (v: Vec<char>)
    ensures
        v@ == s@,
{
    let n = s.unicode_len();
    let mut v: Vec<char> = Vec::new();
    let mut i: usize = 0;
    proof {
        assert(v@ =~= s@.subrange(0, 0));
    }
    while i < n
        invariant
            n == s@.len(),
            i <= n,
            v@ == s@.subrange(0, i as int),
        decreases n - i,
    {
        v.push(s.get_char(i));
        i = i + 1;
        proof {
            assert(v@ =~= s@.subrange(0, i as int));
        }
    }
    proof {
        assert(s@.subrange(0, n as int) =~= s@);
    }
    v
}

/// A decoder rejection, with its reason as the message.
fn malformed(why: &str) -> (e: Error)
    ensures
        e is MalformedConfig,
{
    Error::MalformedConfig(why.to_owned())
}

/// Whether the characters of `lit` stand at position `i` of `v`; on
/// success, the position just past them.
fn expect_lit(v: &Vec<char>, i: usize, lit: &str) -> (r: Option<usize>)
    ensures
        r is Some ==> {
            &&& r->0 == i + lit@.len()
            &&& i <= r->0 <= v@.len()
            &&& v@.subrange(i as int, r->0 as int) == lit@
        },
        r is None ==> !(i + lit@.len() <= v@.len() && v@.subrange(
            i as int,
            i + lit@.len(),
        ) == lit@),
{
    let n = lit.unicode_len();
    let vn = v.len();
    if i > vn || n > vn - i {
        return None;
    }
    proof {
        assert(i + n <= vn);
    }
    let mut k: usize = 0;
    while k < n
        invariant
            k <= n,
            n == lit@.len(),
            i + n <= vn,
            vn == v@.len(),
            forall|t: int| 0 <= t < k ==> v@[i + t] == lit@[t],
        decreases n - k,
    {
        if v[i + k] != lit.get_char(k) {
            proof {
                assert(v@.subrange(i as int, i + lit@.len()) =~= lit@ ==> v@[i + k]
                    == lit@[k as int]);
            }
            return None;
        }
        k = k + 1;
    }
    proof {
        assert(v@.subrange(i as int, (i + n) as int) =~= lit@);
    }
    Some(i + n)
}

/// Whether the text of `v` from position `i` on is `what` followed by
/// `rest`; the shape every completeness argument of the decoder speaks of.
pub open spec fn follows(v: Seq<char>, i: int, what: Seq<char>, rest: Seq<char>) -> bool {
    0 <= i <= v.len() && v.skip(i) == what + rest
}

/// Splitting a known suffix: when the text from `i` on is `a + b`, the
/// next `a.len()` characters are `a` and the text after them is `b`.
proof fn lemma_skip_concat(v: Seq<char>, i: int, a: Seq<char>, b: Seq<char>)
    requires
        0 <= i <= v.len(),
        v.skip(i) == a + b,
    ensures
        i + a.len() <= v.len(),
        v.subrange(i, i + a.len()) == a,
        v.skip(i + a.len()) == b,
{
    assert(v.skip(i).len() == a.len() + b.len());
    assert(v.subrange(i, i + a.len()) =~= a);
    assert forall|t: int| 0 <= t < b.len() implies v.skip(i + a.len())[t] == b[t] by {
        assert(v.skip(i + a.len())[t] == v[i + a.len() + t]);
        assert(v.skip(i)[a.len() + t] == v[i + a.len() + t]);
        assert((a + b)[a.len() + t] == b[t]);
    }
    assert(v.skip(i + a.len()) =~= b);
}

/// Reads an encoded boolean.
fn parse_bool(v: &Vec<char>, i: usize) -> (r: Result<(bool, usize), Error>)
    ensures
        r is Ok ==> {
            &&& i <= r->Ok_0.1 <= v@.len()
            &&& v@.subrange(i as int, r->Ok_0.1 as int) == enc_bool(r->Ok_0.0)
        },
        r is Err ==> r->Err_0 is MalformedConfig,
        forall|x: bool, rest: Seq<char>|
            follows(v@, i as int, enc_bool(x), rest) ==> r is Ok && v@.skip(
                r->Ok_0.1 as int,
            ) == rest,
{
    proof {
        reveal_strlit("true");
        reveal_strlit("false");
    }
    match expect_lit(v, i, "true") {
        Option::Some(j) => {
            proof {
                assert forall|x: bool, rest: Seq<char>|
                    follows(v@, i as int, enc_bool(x), rest) implies v@.skip(j as int)
                    == rest by {
                    lemma_skip_concat(v@, i as int, enc_bool(x), rest);
                    if !x {
                        assert(v@[i as int] == enc_bool(x)[0]);
                        assert(v@[i as int] == "true"@[0]);
                        assert(false);
                    }
                }
            }
            Ok((true, j))
        },
        Option::None => match expect_lit(v, i, "false") {
            Option::Some(j) => {
                proof {
                    assert forall|x: bool, rest: Seq<char>|
                        follows(v@, i as int, enc_bool(x), rest) implies v@.skip(j as int)
                        == rest by {
                        lemma_skip_concat(v@, i as int, enc_bool(x), rest);
                        if x {
                            assert(false);
                        }
                    }
                }
                Ok((false, j))
            },
            Option::None => {
                proof {
                    assert forall|x: bool, rest: Seq<char>|
                        !follows(v@, i as int, enc_bool(x), rest) by {
                        if follows(v@, i as int, enc_bool(x), rest) {
                            lemma_skip_concat(v@, i as int, enc_bool(x), rest);
                        }
                    }
                }
                Err(malformed("expected a boolean"))
            },
        },
    }
}

/// Escaping distributes over appending one character at the end.
proof fn lemma_esc_push(s: Seq<char>, c: char)
    ensures
        esc(s.push(c)) == esc(s) + esc_char(c),
    decreases s.len(),
{
    if s.len() == 0 {
        assert(s.push(c)[0] == c);
        assert(s.push(c).skip(1) =~= Seq::<char>::empty());
        assert(esc(Seq::<char>::empty()) =~= Seq::<char>::empty());
        assert(esc(s) =~= Seq::<char>::empty());
        assert(esc(s.push(c)) =~= esc(s) + esc_char(c));
    } else {
        assert(s.push(c)[0] == s[0]);
        assert(s.push(c).skip(1) =~= s.skip(1).push(c));
        lemma_esc_push(s.skip(1), c);
        assert(esc(s.push(c)) =~= esc(s) + esc_char(c));
    }
}

/// Reads an encoded string: a quoted body whose escapes are exactly the
/// ones the encoder writes, so the consumed text is the encoding of the
/// returned content; conversely, wherever an encoded string stands, the
/// read succeeds.
#[verifier::rlimit(100)]
#[verifier::spinoff_prover]
fn parse_string(v: &Vec<char>, i: usize) -> (r: Result<(String, usize), Error>)
    ensures
        r is Ok ==> {
            &&& i < r->Ok_0.1 <= v@.len()
            &&& v@.subrange(i as int, r->Ok_0.1 as int) == enc_string(r->Ok_0.0@)
        },
        r is Err ==> r->Err_0 is MalformedConfig,
        forall|x: Seq<char>, rest: Seq<char>|
            follows(v@, i as int, enc_string(x), rest) ==> r is Ok && v@.skip(
                r->Ok_0.1 as int,
            ) == rest,
{
    if i >= v.len() {
        proof {
            assert forall|x: Seq<char>, rest: Seq<char>| !follows(
                v@,
                i as int,
                enc_string(x),
                rest,
            ) by {
                if follows(v@, i as int, enc_string(x), rest) {
                    assert(v@.skip(i as int).len() == 0);
                    assert((enc_string(x) + rest).len() >= 2);
                }
            }
        }
        return Err(malformed("expected a string"));
    }
    if v[i] != '"' {
        proof {
            assert forall|x: Seq<char>, rest: Seq<char>| !follows(
                v@,
                i as int,
                enc_string(x),
                rest,
            ) by {
                if follows(v@, i as int, enc_string(x), rest) {
                    assert(v@.skip(i as int)[0] == v@[i as int]);
                    assert((enc_string(x) + rest)[0] == '"');
                }
            }
        }
        return Err(malformed("expected a string"));
    }
    let mut content = String::new();
    let mut j: usize = i + 1;
    proof {
        assert(v@.subrange(i as int + 1, j as int) =~= esc(content@));
        assert forall|x: Seq<char>, rest: Seq<char>| #[trigger] follows(
            v@,
            i as int + 1,
            esc(x) + seq!['"'],
            rest,
        ) implies {
            &&& content@.len() <= x.len()
            &&& content@ == x.take(content@.len() as int)
            &&& v@.skip(j as int) == esc(x.skip(content@.len() as int)) + seq!['"'] + rest
        } by {
            assert(x.take(0) =~= content@);
            assert(x.skip(0) =~= x);
        }
    }
    loop
        invariant
            i as int + 1 <= j <= v@.len(),
            i < v@.len(),
            v@[i as int] == '"',
            v@.subrange(i as int + 1, j as int) == esc(content@),
            forall|x: Seq<char>, rest: Seq<char>| #[trigger] follows(
                v@,
                i as int + 1,
                esc(x) + seq!['"'],
                rest,
            ) ==> {
                &&& content@.len() <= x.len()
                &&& content@ == x.take(content@.len() as int)
                &&& v@.skip(j as int) == esc(x.skip(content@.len() as int)) + seq!['"'] + rest
            },
        decreases v@.len() - j,
    {
        if j >= v.len() {
            proof {
                assert forall|x: Seq<char>, rest: Seq<char>| !follows(
                    v@,
                    i as int,
                    enc_string(x),
                    rest,
                ) by {
                    if follows(v@, i as int, enc_string(x), rest) {
                        assert((seq!['"'] + esc(x) + seq!['"']) + rest =~= seq!['"'] + ((esc(
                            x,
                        ) + seq!['"']) + rest));
                        lemma_skip_concat(v@, i as int, seq!['"'], (esc(x) + seq!['"']) + rest);
                        assert(follows(v@, i as int + 1, esc(x) + seq!['"'], rest));
                        assert(v@.skip(j as int).len() == 0);
                    }
                }
            }
            return Err(malformed("unterminated string"));
        }
        let c = v[j];
        if c == '"' {
            proof {
                assert(v@.subrange(i as int, j as int + 1) =~= seq!['"'] + esc(content@)
                    + seq!['"']);
                assert forall|x: Seq<char>, rest: Seq<char>| follows(
                    v@,
                    i as int,
                    enc_string(x),
                    rest,
                ) implies v@.skip(j as int + 1) == rest by {
                    assert((seq!['"'] + esc(x) + seq!['"']) + rest =~= seq!['"'] + ((esc(x)
                        + seq!['"']) + rest));
                    lemma_skip_concat(v@, i as int, seq!['"'], (esc(x) + seq!['"']) + rest);
                    assert(follows(v@, i as int + 1, esc(x) + seq!['"'], rest));
                    let clen = content@.len() as int;
                    let rem = x.skip(clen);
                    if rem.len() > 0 {
                        assert(esc(rem) == esc_char(rem[0]) + esc(rem.skip(1)));
                        assert(v@.skip(j as int)[0] == v@[j as int]);
                        assert((esc(rem) + seq!['"'] + rest)[0] == esc_char(rem[0])[0]);
                        assert(false);
                    }
                    assert(esc(rem) == Seq::<char>::empty());
                    assert(v@.skip(j as int) =~= seq!['"'] + rest);
                    lemma_skip_concat(v@, j as int, seq!['"'], rest);
                }
            }
            return Ok((content, j + 1));
        } else if c == '\\' {
            proof {
                assert forall|x: Seq<char>, rest: Seq<char>| #[trigger] follows(
                    v@,
                    i as int + 1,
                    esc(x) + seq!['"'],
                    rest,
                ) implies {
                    &&& content@.len() < x.len()
                    &&& esc_char(x[content@.len() as int]).len() == 2
                    &&& v@[j as int] == esc_char(x[content@.len() as int])[0]
                    &&& v@.len() - j >= 3
                    &&& j + 1 < v@.len() ==> v@[j as int + 1] == esc_char(
                        x[content@.len() as int],
                    )[1]
                } by {
                    let clen = content@.len() as int;
                    let rem = x.skip(clen);
                    if rem.len() == 0 {
                        assert(esc(rem) == Seq::<char>::empty());
                        assert(v@.skip(j as int)[0] == v@[j as int]);
                        assert((esc(rem) + seq!['"'] + rest)[0] == '"');
                        assert(false);
                    }
                    assert(esc(rem) == esc_char(rem[0]) + esc(rem.skip(1)));
                    assert(v@.skip(j as int)[0] == v@[j as int]);
                    assert((esc(rem) + seq!['"'] + rest)[0] == esc_char(rem[0])[0]);
                    if esc_char(rem[0]).len() == 1 {
                        assert(rem[0] == '\\');
                        assert(false);
                    }
                    assert(rem[0] == x[clen]);
                    assert(v@.skip(j as int).len() >= esc_char(rem[0]).len() + 1);
                    if j + 1 < v@.len() {
                        assert(v@.skip(j as int)[1] == v@[j as int + 1]);
                        assert((esc(rem) + seq!['"'] + rest)[1] == esc_char(rem[0])[1]);
                    }
                }
            }
            if j + 1 >= v.len() {
                proof {
                    assert forall|x: Seq<char>, rest: Seq<char>| !follows(
                        v@,
                        i as int,
                        enc_string(x),
                        rest,
                    ) by {
                        if follows(v@, i as int, enc_string(x), rest) {
                            assert((seq!['"'] + esc(x) + seq!['"']) + rest =~= seq!['"'] + ((esc(
                                x,
                            ) + seq!['"']) + rest));
                            lemma_skip_concat(
                                v@,
                                i as int,
                                seq!['"'],
                                (esc(x) + seq!['"']) + rest,
                            );
                            assert(follows(v@, i as int + 1, esc(x) + seq!['"'], rest));
                        }
                    }
                }
                return Err(malformed("unterminated escape"));
            }
            let e = v[j + 1];
            let u: char;
            if e == '"' {
                u = '"';
            } else if e == '\\' {
                u = '\\';
            } else if e == 'n' {
                u = '\n';
            } else if e == 't' {
                u = '\t';
            } else if e == 'r' {
                u = '\r';
            } else {
                proof {
                    assert forall|x: Seq<char>, rest: Seq<char>| !follows(
                        v@,
                        i as int,
                        enc_string(x),
                        rest,
                    ) by {
                        if follows(v@, i as int, enc_string(x), rest) {
                            assert((seq!['"'] + esc(x) + seq!['"']) + rest =~= seq!['"'] + ((esc(
                                x,
                            ) + seq!['"']) + rest));
                            lemma_skip_concat(
                                v@,
                                i as int,
                                seq!['"'],
                                (esc(x) + seq!['"']) + rest,
                            );
                            assert(follows(v@, i as int + 1, esc(x) + seq!['"'], rest));
                            let cx = x[content@.len() as int];
                            assert(e == esc_char(cx)[1]);
                            if cx == '"' {
                            } else if cx == '\\' {
                            } else if cx == '\n' {
                            } else if cx == '\t' {
                            } else if cx == '\r' {
                            } else {
                                assert(esc_char(cx).len() == 1);
                            }
                        }
                    }
                }
                return Err(malformed("unknown escape"));
            }
            let ghost oldc = content@;
            let ghost oldj = j as int;
            proof {
                lemma_esc_push(content@, u);
                assert(esc_char(u) =~= seq![c, e]);
                assert(v@.subrange(i as int + 1, j as int + 2) =~= v@.subrange(
                    i as int + 1,
                    j as int,
                ) + seq![v@[j as int], v@[j as int + 1]]);
            }
            push_char(&mut content, u);
            j = j + 2;
            proof {
                assert forall|x: Seq<char>, rest: Seq<char>| #[trigger] follows(
                    v@,
                    i as int + 1,
                    esc(x) + seq!['"'],
                    rest,
                ) implies {
                    &&& content@.len() <= x.len()
                    &&& content@ == x.take(content@.len() as int)
                    &&& v@.skip(j as int) == esc(x.skip(content@.len() as int)) + seq!['"']
                        + rest
                } by {
                    let clen = oldc.len() as int;
                    let rem = x.skip(clen);
                    let cx = x[clen];
                    assert(rem[0] == cx);
                    assert(esc_char(cx).len() == 2);
                    assert(v@[oldj] == esc_char(cx)[0]);
                    assert(v@[oldj + 1] == esc_char(cx)[1]);
                    assert(u == cx);
                    assert(content@ == oldc.push(cx));
                    assert(x.take(clen + 1) =~= x.take(clen).push(cx));
                    assert(esc(rem) == esc_char(cx) + esc(rem.skip(1)));
                    assert(esc_char(cx) + esc(rem.skip(1)) + seq!['"'] + rest =~= esc_char(cx)
                        + (esc(rem.skip(1)) + seq!['"'] + rest));
                    lemma_skip_concat(v@, oldj, esc_char(cx), esc(rem.skip(1)) + seq!['"']
                        + rest);
                    assert(rem.skip(1) =~= x.skip(clen + 1));
                }
            }
        } else if c == '\n' || c == '\t' || c == '\r' {
            proof {
                assert forall|x: Seq<char>, rest: Seq<char>| !follows(
                    v@,
                    i as int,
                    enc_string(x),
                    rest,
                ) by {
                    if follows(v@, i as int, enc_string(x), rest) {
                        assert((seq!['"'] + esc(x) + seq!['"']) + rest =~= seq!['"'] + ((esc(
                            x,
                        ) + seq!['"']) + rest));
                        lemma_skip_concat(v@, i as int, seq!['"'], (esc(x) + seq!['"']) + rest);
                        assert(follows(v@, i as int + 1, esc(x) + seq!['"'], rest));
                        let clen = content@.len() as int;
                        let rem = x.skip(clen);
                        if rem.len() == 0 {
                            assert(esc(rem) == Seq::<char>::empty());
                            assert(v@.skip(j as int)[0] == v@[j as int]);
                            assert((esc(rem) + seq!['"'] + rest)[0] == '"');
                            assert(false);
                        }
                        assert(esc(rem) == esc_char(rem[0]) + esc(rem.skip(1)));
                        assert(v@.skip(j as int)[0] == v@[j as int]);
                        assert((esc(rem) + seq!['"'] + rest)[0] == esc_char(rem[0])[0]);
                        if esc_char(rem[0]).len() == 1 {
                            assert(rem[0] == c);
                        }
                        assert(false);
                    }
                }
            }
            return Err(malformed("unescaped control character"));
        } else {
            let ghost oldc = content@;
            let ghost oldj = j as int;
            proof {
                lemma_esc_push(content@, c);
                assert(esc_char(c) =~= seq![c]);
                assert(v@.subrange(i as int + 1, j as int + 1) =~= v@.subrange(
                    i as int + 1,
                    j as int,
                ) + seq![v@[j as int]]);
            }
            push_char(&mut content, c);
            j = j + 1;
            proof {
                assert forall|x: Seq<char>, rest: Seq<char>| #[trigger] follows(
                    v@,
                    i as int + 1,
                    esc(x) + seq!['"'],
                    rest,
                ) implies {
                    &&& content@.len() <= x.len()
                    &&& content@ == x.take(content@.len() as int)
                    &&& v@.skip(j as int) == esc(x.skip(content@.len() as int)) + seq!['"']
                        + rest
                } by {
                    let clen = oldc.len() as int;
                    let rem = x.skip(clen);
                    if rem.len() == 0 {
                        assert(esc(rem) == Seq::<char>::empty());
                        assert(v@.skip(oldj)[0] == v@[oldj]);
                        assert((esc(rem) + seq!['"'] + rest)[0] == '"');
                        assert(false);
                    }
                    let cx = x[clen];
                    assert(rem[0] == cx);
                    assert(esc(rem) == esc_char(cx) + esc(rem.skip(1)));
                    assert(v@.skip(oldj)[0] == v@[oldj]);
                    assert((esc(rem) + seq!['"'] + rest)[0] == esc_char(cx)[0]);
                    if esc_char(cx).len() == 2 {
                        assert(esc_char(cx)[0] == '\\');
                        assert(false);
                    }
                    assert(cx == c);
                    assert(content@ == oldc.push(cx));
                    assert(x.take(clen + 1) =~= x.take(clen).push(cx));
                    assert(esc_char(cx) + esc(rem.skip(1)) + seq!['"'] + rest =~= esc_char(cx)
                        + (esc(rem.skip(1)) + seq!['"'] + rest));
                    lemma_skip_concat(v@, oldj, esc_char(cx), esc(rem.skip(1)) + seq!['"']
                        + rest);
                    assert(rem.skip(1) =~= x.skip(clen + 1));
                }
            }
        }
    }
}

/// Reads an encoded leaf predicate; wherever an encoded predicate
/// stands, the read succeeds.
#[verifier::rlimit(100)]
#[verifier::spinoff_prover]
fn parse_kind(v: &Vec<char>, i: usize) -> (r: Result<(MatcherKind, usize), Error>)
    ensures
        r is Ok ==> {
            &&& i <= r->Ok_0.1 <= v@.len()
            &&& v@.subrange(i as int, r->Ok_0.1 as int) == enc_kind(r->Ok_0.0)
        },
        r is Err ==> r->Err_0 is MalformedConfig,
        forall|x: MatcherKind, rest: Seq<char>|
            follows(v@, i as int, enc_kind(x), rest) ==> r is Ok && v@.skip(
                r->Ok_0.1 as int,
            ) == rest,
{
    proof {
        reveal_strlit("\"AlwaysTrue\"");
        reveal_strlit("\"AlwaysFalse\"");
        reveal_strlit("{\"Re\":{\"expr\":");
    }
    match expect_lit(v, i, "\"AlwaysTrue\"") {
        Option::Some(j) => {
            proof {
                assert forall|x: MatcherKind, rest: Seq<char>| follows(
                    v@,
                    i as int,
                    enc_kind(x),
                    rest,
                ) implies v@.skip(j as int) == rest by {
                    lemma_skip_concat(v@, i as int, enc_kind(x), rest);
                    match x {
                        MatcherKind::AlwaysTrue => {
                        },
                        MatcherKind::AlwaysFalse => {
                            assert(v@[i as int + 7] == enc_kind(x)[7]);
                            assert(v@[i as int + 7] == "\"AlwaysTrue\""@[7]);
                            assert(false);
                        },
                        MatcherKind::Re(re) => {
                            assert(enc_kind(x)[0] == '{');
                            assert(v@[i as int] == enc_kind(x)[0]);
                            assert(v@[i as int] == "\"AlwaysTrue\""@[0]);
                            assert(false);
                        },
                    }
                }
            }
            return Ok((MatcherKind::AlwaysTrue, j));
        },
        Option::None => {
        },
    }
    match expect_lit(v, i, "\"AlwaysFalse\"") {
        Option::Some(j) => {
            proof {
                assert forall|x: MatcherKind, rest: Seq<char>| follows(
                    v@,
                    i as int,
                    enc_kind(x),
                    rest,
                ) implies v@.skip(j as int) == rest by {
                    lemma_skip_concat(v@, i as int, enc_kind(x), rest);
                    match x {
                        MatcherKind::AlwaysFalse => {
                        },
                        MatcherKind::AlwaysTrue => {
                            assert(false);
                        },
                        MatcherKind::Re(re) => {
                            assert(enc_kind(x)[0] == '{');
                            assert(v@[i as int] == enc_kind(x)[0]);
                            assert(v@[i as int] == "\"AlwaysFalse\""@[0]);
                            assert(false);
                        },
                    }
                }
            }
            return Ok((MatcherKind::AlwaysFalse, j));
        },
        Option::None => {
        },
    }
    match expect_lit(v, i, "{\"Re\":{\"expr\":") {
        Option::Some(j1) => {
            proof {
                assert forall|x: MatcherKind, rest: Seq<char>| follows(
                    v@,
                    i as int,
                    enc_kind(x),
                    rest,
                ) implies (x matches MatcherKind::Re(re) && follows(
                    v@,
                    j1 as int,
                    enc_string(re.expr@),
                    "}}"@ + rest,
                )) by {
                    lemma_skip_concat(v@, i as int, enc_kind(x), rest);
                    match x {
                        MatcherKind::AlwaysTrue => {
                            assert(false);
                        },
                        MatcherKind::AlwaysFalse => {
                            assert(false);
                        },
                        MatcherKind::Re(re) => {
                            assert(("{\"Re\":{\"expr\":"@ + enc_string(re.expr@) + "}}"@)
                                + rest =~= "{\"Re\":{\"expr\":"@ + (enc_string(re.expr@)
                                + ("}}"@ + rest)));
                            lemma_skip_concat(
                                v@,
                                i as int,
                                "{\"Re\":{\"expr\":"@,
                                enc_string(re.expr@) + ("}}"@ + rest),
                            );
                        },
                    }
                }
            }
            match parse_string(v, j1) {
                Ok(p) => {
                    let expr = p.0;
                    let j2 = p.1;
                    match expect_lit(v, j2, "}}") {
                        Option::Some(j3) => {
                            proof {
                                assert(v@.subrange(i as int, j3 as int) =~= v@.subrange(
                                    i as int,
                                    j1 as int,
                                ) + v@.subrange(j1 as int, j2 as int) + v@.subrange(
                                    j2 as int,
                                    j3 as int,
                                ));
                                assert forall|x: MatcherKind, rest: Seq<char>| follows(
                                    v@,
                                    i as int,
                                    enc_kind(x),
                                    rest,
                                ) implies v@.skip(j3 as int) == rest by {
                                    let re = x->Re_0;
                                    assert(v@.skip(j2 as int) == "}}"@ + rest);
                                    lemma_skip_concat(v@, j2 as int, "}}"@, rest);
                                }
                            }
                            Ok((MatcherKind::Re(ReMatcher { expr }), j3))
                        },
                        Option::None => {
                            proof {
                                assert forall|x: MatcherKind, rest: Seq<char>| !follows(
                                    v@,
                                    i as int,
                                    enc_kind(x),
                                    rest,
                                ) by {
                                    if follows(v@, i as int, enc_kind(x), rest) {
                                        assert(v@.skip(j2 as int) == "}}"@ + rest);
                                        lemma_skip_concat(v@, j2 as int, "}}"@, rest);
                                    }
                                }
                            }
                            Err(malformed("expected the end of a pattern"))
                        },
                    }
                },
                Err(e) => Err(e),
            }
        },
        Option::None => {
            proof {
                assert forall|x: MatcherKind, rest: Seq<char>| !follows(
                    v@,
                    i as int,
                    enc_kind(x),
                    rest,
                ) by {
                    if follows(v@, i as int, enc_kind(x), rest) {
                        lemma_skip_concat(v@, i as int, enc_kind(x), rest);
                        match x {
                            MatcherKind::AlwaysTrue => {
                            },
                            MatcherKind::AlwaysFalse => {
                            },
                            MatcherKind::Re(re) => {
                                assert(("{\"Re\":{\"expr\":"@ + enc_string(re.expr@) + "}}"@)
                                    + rest =~= "{\"Re\":{\"expr\":"@ + (enc_string(re.expr@)
                                    + ("}}"@ + rest)));
                                lemma_skip_concat(
                                    v@,
                                    i as int,
                                    "{\"Re\":{\"expr\":"@,
                                    enc_string(re.expr@) + ("}}"@ + rest),
                                );
                            },
                        }
                    }
                }
            }
            Err(malformed("expected a predicate"))
        },
    }
}

/// Appending an element to a non-empty joined list appends a comma and
/// the element's encoding.
proof fn lemma_enc_matchers_push(ms: Seq<Matcher>, m: Matcher, k: int)
    requires
        0 <= k < ms.len(),
    ensures
        enc_matchers_from(ms.push(m), k) == enc_matchers_from(ms, k) + seq![','] + enc_matcher(
            m,
        ),
    decreases ms.len() - k,
{
    let p = ms.push(m);
    assert(p[k] == ms[k]);
    if k + 1 == ms.len() {
        assert(p[k + 1] == m);
        assert(enc_matchers_from(p, k + 1) == enc_matcher(m));
        assert(enc_matchers_from(ms, k) == enc_matcher(ms[k]));
        assert(enc_matchers_from(p, k) =~= enc_matchers_from(ms, k) + seq![','] + enc_matcher(
            m,
        ));
    } else {
        lemma_enc_matchers_push(ms, m, k + 1);
        assert(enc_matchers_from(p, k) =~= enc_matchers_from(ms, k) + seq![','] + enc_matcher(
            m,
        ));
    }
}

/// The encoding of the elements of a matcher list after the first `k`:
/// a comma before each one.
pub open spec fn sep_tail_m(ms: Seq<Matcher>, k: int) -> Seq<char>
    decreases ms.len() - k,
{
    if k < 0 || k >= ms.len() {
        Seq::<char>::empty()
    } else {
        seq![','] + enc_matcher(ms[k]) + sep_tail_m(ms, k + 1)
    }
}

/// The joined elements from `k` on are the `k`-th element followed by the
/// comma-separated tail.
proof fn lemma_enc_from_decomp(ms: Seq<Matcher>, k: int)
    requires
        0 <= k < ms.len(),
    ensures
        enc_matchers_from(ms, k) == enc_matcher(ms[k]) + sep_tail_m(ms, k + 1),
    decreases ms.len() - k,
{
    if k + 1 == ms.len() {
        assert(sep_tail_m(ms, k + 1) == Seq::<char>::empty());
        assert(enc_matchers_from(ms, k) =~= enc_matcher(ms[k]) + sep_tail_m(ms, k + 1));
    } else {
        lemma_enc_from_decomp(ms, k + 1);
        assert(enc_matchers_from(ms, k) =~= enc_matcher(ms[k]) + sep_tail_m(ms, k + 1));
    }
}

/// Every encoded matcher starts with an opening brace.
proof fn lemma_enc_matcher_first(x: Matcher)
    ensures
        enc_matcher(x).len() > 0,
        enc_matcher(x)[0] == '{',
{
    reveal_strlit("{\"kind\":");
    assert(enc_matcher(x)[0] == "{\"kind\":"@[0]);
}

/// Peeling a known leading piece off a suffix: when `a + b + c` stands at
/// `p`, then `b + c` stands just past `a`.
proof fn lemma_follows_step(v: Seq<char>, p: int, a: Seq<char>, b: Seq<char>, c: Seq<char>)
    requires
        follows(v, p, a, b + c),
    ensures
        follows(v, p + a.len(), b, c),
        v.subrange(p, p + a.len()) == a,
{
    lemma_skip_concat(v, p, a, b + c);
}

/// Opening an encoded matcher: its leading key stands first, and the
/// encoded leaf predicate follows it.
#[verifier::rlimit(100)]
#[verifier::spinoff_prover]
proof fn lemma_m_decomp(v: Seq<char>, i: int, x: Matcher, rest: Seq<char>)
    requires
        follows(v, i, enc_matcher(x), rest),
    ensures
        follows(
            v,
            i + "{\"kind\":"@.len(),
            enc_kind(x.kind),
            ",\"or\":"@ + (enc_matcher_list(x.or@) + (",\"and\":"@ + (enc_matcher_list(x.and@) + (",\"not\":"@ + (enc_bool(x.not) + ("}"@ + rest)))))),
        ),
        v.subrange(i, i + "{\"kind\":"@.len()) == "{\"kind\":"@,
{
    assert(enc_matcher(x) + rest =~= "{\"kind\":"@ + (enc_kind(x.kind) + (",\"or\":"@ + (enc_matcher_list(x.or@) + (",\"and\":"@ + (enc_matcher_list(x.and@) + (",\"not\":"@ + (enc_bool(x.not) + ("}"@ + rest)))))))));
    lemma_skip_concat(v, i, "{\"kind\":"@, enc_kind(x.kind) + (",\"or\":"@ + (enc_matcher_list(x.or@) + (",\"and\":"@ + (enc_matcher_list(x.and@) + (",\"not\":"@ + (enc_bool(x.not) + ("}"@ + rest))))))));
}

/// Reads an encoded matcher node; wherever an encoded matcher stands,
/// the read succeeds.
#[verifier::rlimit(100)]
#[verifier::spinoff_prover]
fn parse_matcher(v: &Vec<char>, i: usize) -> (r: Result<(Matcher, usize), Error>)
    ensures
        r is Ok ==> {
            &&& i < r->Ok_0.1 <= v@.len()
            &&& v@.subrange(i as int, r->Ok_0.1 as int) == enc_matcher(r->Ok_0.0)
        },
        r is Err ==> r->Err_0 is MalformedConfig,
        forall|x: Matcher, rest: Seq<char>|
            follows(v@, i as int, enc_matcher(x), rest) ==> r is Ok && v@.skip(
                r->Ok_0.1 as int,
            ) == rest,
    decreases v@.len() - i, 1nat,
{
    proof {
        reveal_strlit("{\"kind\":");
    }
    let j1 = match expect_lit(v, i, "{\"kind\":") {
        Option::Some(j) => j,
        Option::None => {
            proof {
            assert forall|x: Matcher, rest: Seq<char>| !follows(
                v@,
                i as int,
                enc_matcher(x),
                rest,
            ) by {
                if follows(v@, i as int, enc_matcher(x), rest) {
                    lemma_m_decomp(v@, i as int, x, rest);
                }
            }
            }
            return Err(malformed("expected a matcher"));
        },
    };
    proof {
            assert forall|x: Matcher, rest: Seq<char>| follows(
                v@,
                i as int,
                enc_matcher(x),
                rest,
            ) implies follows(v@, j1 as int, enc_kind(x.kind), (",\"or\":"@ + (enc_matcher_list(x.or@) + (",\"and\":"@ + (enc_matcher_list(x.and@) + (",\"not\":"@ + (enc_bool(x.not) + ("}"@ + rest)))))))) by {
                lemma_m_decomp(v@, i as int, x, rest);
            }
    }
    let pk = match parse_kind(v, j1) {
        Ok(p) => p,
        Err(e) => {
            return Err(e);
        },
    };
    let kind = pk.0;
    let j2 = pk.1;
    proof {
            assert forall|x: Matcher, rest: Seq<char>| follows(
                v@,
                i as int,
                enc_matcher(x),
                rest,
            ) implies follows(v@, j2 as int, ",\"or\":"@, (enc_matcher_list(x.or@) + (",\"and\":"@ + (enc_matcher_list(x.and@) + (",\"not\":"@ + (enc_bool(x.not) + ("}"@ + rest))))))) by {
                assert(follows(v@, j1 as int, enc_kind(x.kind), ",\"or\":"@ + (enc_matcher_list(x.or@) + (",\"and\":"@ + (enc_matcher_list(x.and@) + (",\"not\":"@ + (enc_bool(x.not) + ("}"@ + rest))))))));
                assert(v@.skip(j2 as int) == ",\"or\":"@ + (enc_matcher_list(x.or@) + (",\"and\":"@ + (enc_matcher_list(x.and@) + (",\"not\":"@ + (enc_bool(x.not) + ("}"@ + rest)))))));
            }
    }
    let j3 = match expect_lit(v, j2, ",\"or\":") {
        Option::Some(j) => j,
        Option::None => {
            proof {
            assert forall|x: Matcher, rest: Seq<char>| !follows(
                v@,
                i as int,
                enc_matcher(x),
                rest,
            ) by {
                if follows(v@, i as int, enc_matcher(x), rest) {
                    assert(follows(v@, j2 as int, ",\"or\":"@, (enc_matcher_list(x.or@) + (",\"and\":"@ + (enc_matcher_list(x.and@) + (",\"not\":"@ + (enc_bool(x.not) + ("}"@ + rest))))))));
                    lemma_follows_step(v@, j2 as int, ",\"or\":"@, enc_matcher_list(x.or@), ",\"and\":"@ + (enc_matcher_list(x.and@) + (",\"not\":"@ + (enc_bool(x.not) + ("}"@ + rest)))));
                }
            }
            }
            return Err(malformed("expected the or list"));
        },
    };
    proof {
            assert forall|x: Matcher, rest: Seq<char>| follows(
                v@,
                i as int,
                enc_matcher(x),
                rest,
            ) implies follows(v@, j3 as int, enc_matcher_list(x.or@), (",\"and\":"@ + (enc_matcher_list(x.and@) + (",\"not\":"@ + (enc_bool(x.not) + ("}"@ + rest)))))) by {
                assert(follows(v@, j2 as int, ",\"or\":"@, (enc_matcher_list(x.or@) + (",\"and\":"@ + (enc_matcher_list(x.and@) + (",\"not\":"@ + (enc_bool(x.not) + ("}"@ + rest))))))));
                lemma_follows_step(v@, j2 as int, ",\"or\":"@, enc_matcher_list(x.or@), ",\"and\":"@ + (enc_matcher_list(x.and@) + (",\"not\":"@ + (enc_bool(x.not) + ("}"@ + rest)))));
            }
    }
    let po = match parse_matcher_list(v, j3) {
        Ok(p) => p,
        Err(e) => {
            return Err(e);
        },
    };
    let or = po.0;
    let j4 = po.1;
    proof {
            assert forall|x: Matcher, rest: Seq<char>| follows(
                v@,
                i as int,
                enc_matcher(x),
                rest,
            ) implies follows(v@, j4 as int, ",\"and\":"@, (enc_matcher_list(x.and@) + (",\"not\":"@ + (enc_bool(x.not) + ("}"@ + rest))))) by {
                assert(follows(v@, j3 as int, enc_matcher_list(x.or@), (",\"and\":"@ + (enc_matcher_list(x.and@) + (",\"not\":"@ + (enc_bool(x.not) + ("}"@ + rest)))))));
                assert(v@.skip(j4 as int) == (",\"and\":"@ + (enc_matcher_list(x.and@) + (",\"not\":"@ + (enc_bool(x.not) + ("}"@ + rest))))));
            }
    }
    let j5 = match expect_lit(v, j4, ",\"and\":") {
        Option::Some(j) => j,
        Option::None => {
            proof {
            assert forall|x: Matcher, rest: Seq<char>| !follows(
                v@,
                i as int,
                enc_matcher(x),
                rest,
            ) by {
                if follows(v@, i as int, enc_matcher(x), rest) {
                    assert(follows(v@, j4 as int, ",\"and\":"@, (enc_matcher_list(x.and@) + (",\"not\":"@ + (enc_bool(x.not) + ("}"@ + rest))))));
                    lemma_follows_step(v@, j4 as int, ",\"and\":"@, enc_matcher_list(x.and@), ",\"not\":"@ + (enc_bool(x.not) + ("}"@ + rest)));
                }
            }
            }
            return Err(malformed("expected the and list"));
        },
    };
    proof {
            assert forall|x: Matcher, rest: Seq<char>| follows(
                v@,
                i as int,
                enc_matcher(x),
                rest,
            ) implies follows(v@, j5 as int, enc_matcher_list(x.and@), (",\"not\":"@ + (enc_bool(x.not) + ("}"@ + rest)))) by {
                assert(follows(v@, j4 as int, ",\"and\":"@, (enc_matcher_list(x.and@) + (",\"not\":"@ + (enc_bool(x.not) + ("}"@ + rest))))));
                lemma_follows_step(v@, j4 as int, ",\"and\":"@, enc_matcher_list(x.and@), ",\"not\":"@ + (enc_bool(x.not) + ("}"@ + rest)));
            }
    }
    let pa = match parse_matcher_list(v, j5) {
        Ok(p) => p,
        Err(e) => {
            return Err(e);
        },
    };
    let and = pa.0;
    let j6 = pa.1;
    proof {
            assert forall|x: Matcher, rest: Seq<char>| follows(
                v@,
                i as int,
                enc_matcher(x),
                rest,
            ) implies follows(v@, j6 as int, ",\"not\":"@, (enc_bool(x.not) + ("}"@ + rest))) by {
                assert(follows(v@, j5 as int, enc_matcher_list(x.and@), (",\"not\":"@ + (enc_bool(x.not) + ("}"@ + rest)))));
                assert(v@.skip(j6 as int) == (",\"not\":"@ + (enc_bool(x.not) + ("}"@ + rest))));
            }
    }
    let j7 = match expect_lit(v, j6, ",\"not\":") {
        Option::Some(j) => j,
        Option::None => {
            proof {
            assert forall|x: Matcher, rest: Seq<char>| !follows(
                v@,
                i as int,
                enc_matcher(x),
                rest,
            ) by {
                if follows(v@, i as int, enc_matcher(x), rest) {
                    assert(follows(v@, j6 as int, ",\"not\":"@, (enc_bool(x.not) + ("}"@ + rest))));
                    lemma_follows_step(v@, j6 as int, ",\"not\":"@, enc_bool(x.not), "}"@ + rest);
                }
            }
            }
            return Err(malformed("expected the not flag"));
        },
    };
    proof {
            assert forall|x: Matcher, rest: Seq<char>| follows(
                v@,
                i as int,
                enc_matcher(x),
                rest,
            ) implies follows(v@, j7 as int, enc_bool(x.not), ("}"@ + rest)) by {
                assert(follows(v@, j6 as int, ",\"not\":"@, (enc_bool(x.not) + ("}"@ + rest))));
                lemma_follows_step(v@, j6 as int, ",\"not\":"@, enc_bool(x.not), "}"@ + rest);
            }
    }
    let pn = match parse_bool(v, j7) {
        Ok(p) => p,
        Err(e) => {
            return Err(e);
        },
    };
    let not = pn.0;
    let j8 = pn.1;
    proof {
            assert forall|x: Matcher, rest: Seq<char>| follows(
                v@,
                i as int,
                enc_matcher(x),
                rest,
            ) implies follows(v@, j8 as int, "}"@, rest) by {
                assert(follows(v@, j7 as int, enc_bool(x.not), ("}"@ + rest)));
                assert(v@.skip(j8 as int) == ("}"@ + rest));
            }
    }
    let j9 = match expect_lit(v, j8, "}") {
        Option::Some(j) => j,
        Option::None => {
            proof {
            assert forall|x: Matcher, rest: Seq<char>| !follows(
                v@,
                i as int,
                enc_matcher(x),
                rest,
            ) by {
                if follows(v@, i as int, enc_matcher(x), rest) {
                    assert(follows(v@, j8 as int, "}"@, rest));
                    lemma_skip_concat(v@, j8 as int, "}"@, rest);
                }
            }
            }
            return Err(malformed("expected the end of a matcher"));
        },
    };
    let m = Matcher { kind, or, and, not };
    proof {
        assert(v@.subrange(i as int, j9 as int) =~= v@.subrange(i as int, j1 as int)
            + v@.subrange(j1 as int, j2 as int) + v@.subrange(j2 as int, j3 as int)
            + v@.subrange(j3 as int, j4 as int) + v@.subrange(j4 as int, j5 as int)
            + v@.subrange(j5 as int, j6 as int) + v@.subrange(j6 as int, j7 as int)
            + v@.subrange(j7 as int, j8 as int) + v@.subrange(j8 as int, j9 as int));
        assert forall|x: Matcher, rest: Seq<char>| follows(
            v@,
            i as int,
            enc_matcher(x),
            rest,
        ) implies v@.skip(j9 as int) == rest by {
            assert(follows(v@, j8 as int, "}"@, rest));
            lemma_skip_concat(v@, j8 as int, "}"@, rest);
        }
    }
    Ok((m, j9))
}

/// Reads an encoded matcher list; wherever an encoded list stands, the
/// read succeeds.
#[verifier::rlimit(100)]
#[verifier::spinoff_prover]
fn parse_matcher_list(v: &Vec<char>, i: usize) -> (r: Result<(Vec<Matcher>, usize), Error>)
    ensures
        r is Ok ==> {
            &&& i < r->Ok_0.1 <= v@.len()
            &&& v@.subrange(i as int, r->Ok_0.1 as int) == enc_matcher_list(r->Ok_0.0@)
        },
        r is Err ==> r->Err_0 is MalformedConfig,
        forall|xs: Seq<Matcher>, rest: Seq<char>|
            follows(v@, i as int, enc_matcher_list(xs), rest) ==> r is Ok && v@.skip(
                r->Ok_0.1 as int,
            ) == rest,
    decreases v@.len() - i, 0nat,
{
    if i >= v.len() {
        proof {
            assert forall|xs: Seq<Matcher>, rest: Seq<char>| !follows(
                v@,
                i as int,
                enc_matcher_list(xs),
                rest,
            ) by {
                if follows(v@, i as int, enc_matcher_list(xs), rest) {
                    assert(v@.skip(i as int).len() == 0);
                    assert((enc_matcher_list(xs) + rest).len() >= 2);
                }
            }
        }
        return Err(malformed("expected a list"));
    }
    if v[i] != '[' {
        proof {
            assert forall|xs: Seq<Matcher>, rest: Seq<char>| !follows(
                v@,
                i as int,
                enc_matcher_list(xs),
                rest,
            ) by {
                if follows(v@, i as int, enc_matcher_list(xs), rest) {
                    assert(v@.skip(i as int)[0] == v@[i as int]);
                    assert((enc_matcher_list(xs) + rest)[0] == '[');
                }
            }
        }
        return Err(malformed("expected a list"));
    }
    if i + 1 < v.len() && v[i + 1] == ']' {
        let ms: Vec<Matcher> = Vec::new();
        proof {
            assert(enc_matchers_from(ms@, 0) =~= Seq::<char>::empty());
            assert(v@.subrange(i as int, i as int + 2) =~= seq!['['] + enc_matchers_from(
                ms@,
                0,
            ) + seq![']']);
            assert forall|xs: Seq<Matcher>, rest: Seq<char>| follows(
                v@,
                i as int,
                enc_matcher_list(xs),
                rest,
            ) implies v@.skip(i as int + 2) == rest by {
                assert((seq!['['] + enc_matchers_from(xs, 0) + seq![']']) + rest =~= seq![
                    '[',
                ] + (enc_matchers_from(xs, 0) + (seq![']'] + rest)));
                lemma_skip_concat(v@, i as int, seq!['['], enc_matchers_from(xs, 0) + (seq![
                    ']',
                ] + rest));
                if xs.len() > 0 {
                    lemma_enc_from_decomp(xs, 0);
                    lemma_enc_matcher_first(xs[0]);
                    assert(v@.skip(i as int + 1)[0] == v@[i as int + 1]);
                    assert((enc_matchers_from(xs, 0) + (seq![']'] + rest))[0] == '{');
                    assert(false);
                }
                assert(enc_matchers_from(xs, 0) == Seq::<char>::empty());
                assert(v@.skip(i as int + 1) =~= seq![']'] + rest);
                lemma_skip_concat(v@, i as int + 1, seq![']'], rest);
            }
        }
        return Ok((ms, i + 2));
    }
    proof {
        assert forall|xs: Seq<Matcher>, rest: Seq<char>| follows(
            v@,
            i as int,
            enc_matcher_list(xs),
            rest,
        ) implies (xs.len() > 0 && follows(
            v@,
            i as int + 1,
            enc_matcher(xs[0]),
            sep_tail_m(xs, 1) + (seq![']'] + rest),
        )) by {
            assert((seq!['['] + enc_matchers_from(xs, 0) + seq![']']) + rest =~= seq!['['] + (
            enc_matchers_from(xs, 0) + (seq![']'] + rest)));
            lemma_skip_concat(v@, i as int, seq!['['], enc_matchers_from(xs, 0) + (seq![']']
                + rest));
            if xs.len() == 0 {
                assert(enc_matchers_from(xs, 0) == Seq::<char>::empty());
                assert(v@.skip(i as int + 1) =~= seq![']'] + rest);
                assert(v@.skip(i as int + 1)[0] == v@[i as int + 1]);
                assert(false);
            }
            lemma_enc_from_decomp(xs, 0);
            assert(enc_matchers_from(xs, 0) + (seq![']'] + rest) =~= enc_matcher(xs[0]) + (
            sep_tail_m(xs, 1) + (seq![']'] + rest)));
        }
    }
    let mut ms: Vec<Matcher> = Vec::new();
    let p0 = match parse_matcher(v, i + 1) {
        Ok(p) => p,
        Err(e) => {
            return Err(e);
        },
    };
    let mut j = p0.1;
    ms.push(p0.0);
    proof {
        assert(enc_matchers_from(ms@, 0) == enc_matcher(ms@[0]));
        assert(v@.subrange(i as int + 1, j as int) == enc_matchers_from(ms@, 0));
    }
    loop
        invariant
            i as int + 1 <= j <= v@.len(),
            i < v@.len(),
            v@[i as int] == '[',
            ms@.len() >= 1,
            v@.subrange(i as int + 1, j as int) == enc_matchers_from(ms@, 0),
            forall|xs: Seq<Matcher>, rest: Seq<char>| #[trigger] follows(
                v@,
                i as int,
                enc_matcher_list(xs),
                rest,
            ) ==> {
                &&& ms@.len() <= xs.len()
                &&& v@.skip(j as int) == sep_tail_m(xs, ms@.len() as int) + (seq![']'] + rest)
            },
        decreases v@.len() - j,
    {
        if j < v.len() && v[j] == ',' {
            proof {
                assert forall|xs: Seq<Matcher>, rest: Seq<char>| #[trigger] follows(
                    v@,
                    i as int,
                    enc_matcher_list(xs),
                    rest,
                ) implies (ms@.len() < xs.len() && follows(
                    v@,
                    j as int + 1,
                    enc_matcher(xs[ms@.len() as int]),
                    sep_tail_m(xs, ms@.len() as int + 1) + (seq![']'] + rest),
                )) by {
                    let k = ms@.len() as int;
                    if k == xs.len() {
                        assert(sep_tail_m(xs, k) == Seq::<char>::empty());
                        assert(v@.skip(j as int) =~= seq![']'] + rest);
                        assert(v@.skip(j as int)[0] == v@[j as int]);
                        assert(false);
                    }
                    assert(sep_tail_m(xs, k) == seq![','] + enc_matcher(xs[k]) + sep_tail_m(
                        xs,
                        k + 1,
                    ));
                    assert(sep_tail_m(xs, k) + (seq![']'] + rest) =~= seq![','] + (enc_matcher(
                        xs[k],
                    ) + (sep_tail_m(xs, k + 1) + (seq![']'] + rest))));
                    lemma_skip_concat(v@, j as int, seq![','], enc_matcher(xs[k]) + (
                    sep_tail_m(xs, k + 1) + (seq![']'] + rest)));
                }
            }
            let ghost oms = ms@;
            let pk = match parse_matcher(v, j + 1) {
                Ok(p) => p,
                Err(e) => {
                    return Err(e);
                },
            };
            let j2 = pk.1;
            proof {
                lemma_enc_matchers_push(oms, pk.0, 0);
                assert(v@.subrange(i as int + 1, j2 as int) =~= v@.subrange(
                    i as int + 1,
                    j as int,
                ) + seq![v@[j as int]] + v@.subrange(j as int + 1, j2 as int));
            }
            ms.push(pk.0);
            j = j2;
        } else if j < v.len() && v[j] == ']' {
            proof {
                assert(v@.subrange(i as int, j as int + 1) =~= seq!['['] + enc_matchers_from(
                    ms@,
                    0,
                ) + seq![']']);
                assert forall|xs: Seq<Matcher>, rest: Seq<char>| follows(
                    v@,
                    i as int,
                    enc_matcher_list(xs),
                    rest,
                ) implies v@.skip(j as int + 1) == rest by {
                    let k = ms@.len() as int;
                    if k < xs.len() {
                        assert(sep_tail_m(xs, k) == seq![','] + enc_matcher(xs[k])
                            + sep_tail_m(xs, k + 1));
                        assert(v@.skip(j as int)[0] == v@[j as int]);
                        assert((sep_tail_m(xs, k) + (seq![']'] + rest))[0] == ',');
                        assert(false);
                    }
                    assert(sep_tail_m(xs, k) == Seq::<char>::empty());
                    assert(v@.skip(j as int) =~= seq![']'] + rest);
                    lemma_skip_concat(v@, j as int, seq![']'], rest);
                }
            }
            return Ok((ms, j + 1));
        } else {
            proof {
                assert forall|xs: Seq<Matcher>, rest: Seq<char>| !follows(
                    v@,
                    i as int,
                    enc_matcher_list(xs),
                    rest,
                ) by {
                    if follows(v@, i as int, enc_matcher_list(xs), rest) {
                        let k = ms@.len() as int;
                        if k < xs.len() {
                            assert(sep_tail_m(xs, k) == seq![','] + enc_matcher(xs[k])
                                + sep_tail_m(xs, k + 1));
                            assert(v@.skip(j as int)[0] == v@[j as int]);
                            assert((sep_tail_m(xs, k) + (seq![']'] + rest))[0] == ',');
                        } else {
                            assert(sep_tail_m(xs, k) == Seq::<char>::empty());
                            assert(v@.skip(j as int) =~= seq![']'] + rest);
                            assert(v@.skip(j as int)[0] == v@[j as int]);
                        }
                    }
                }
            }
            return Err(malformed("expected a separator or the end of a list"));
        }
    }
}

/// Reads an encoded match result; wherever an encoded result stands,
/// the read succeeds.
#[verifier::rlimit(100)]
#[verifier::spinoff_prover]
fn parse_result(v: &Vec<char>, i: usize) -> (r: Result<(MatchResult, usize), Error>)
    ensures
        r is Ok ==> {
            &&& i <= r->Ok_0.1 <= v@.len()
            &&& v@.subrange(i as int, r->Ok_0.1 as int) == enc_result(r->Ok_0.0)
        },
        r is Err ==> r->Err_0 is MalformedConfig,
        forall|x: MatchResult, rest: Seq<char>|
            follows(v@, i as int, enc_result(x), rest) ==> r is Ok && v@.skip(
                r->Ok_0.1 as int,
            ) == rest,
{
    let j1 = match expect_lit(v, i, "{\"Basic\":{\"message\":") {
        Option::Some(j) => j,
        Option::None => {
            proof {
                assert forall|x: MatchResult, rest: Seq<char>| !follows(
                    v@,
                    i as int,
                    enc_result(x),
                    rest,
                ) by {
                    if follows(v@, i as int, enc_result(x), rest) {
                        let b = x->Basic_0;
                        assert(enc_result(x) + rest =~= "{\"Basic\":{\"message\":"@ + (
                        enc_string(b.message@) + ("}}"@ + rest)));
                        lemma_skip_concat(v@, i as int, "{\"Basic\":{\"message\":"@,
                            enc_string(b.message@) + ("}}"@ + rest));
                    }
                }
            }
            return Err(malformed("expected a result"));
        },
    };
    proof {
        assert forall|x: MatchResult, rest: Seq<char>| follows(
            v@,
            i as int,
            enc_result(x),
            rest,
        ) implies follows(
            v@,
            j1 as int,
            enc_string(x->Basic_0.message@),
            "}}"@ + rest,
        ) by {
            let b = x->Basic_0;
            assert(enc_result(x) + rest =~= "{\"Basic\":{\"message\":"@ + (enc_string(
                b.message@,
            ) + ("}}"@ + rest)));
            lemma_skip_concat(v@, i as int, "{\"Basic\":{\"message\":"@, enc_string(
                b.message@,
            ) + ("}}"@ + rest));
        }
    }
    let ps = match parse_string(v, j1) {
        Ok(p) => p,
        Err(e) => {
            return Err(e);
        },
    };
    let message = ps.0;
    let j2 = ps.1;
    proof {
        assert forall|x: MatchResult, rest: Seq<char>| follows(
            v@,
            i as int,
            enc_result(x),
            rest,
        ) implies follows(v@, j2 as int, "}}"@, rest) by {
            assert(follows(v@, j1 as int, enc_string(x->Basic_0.message@), "}}"@ + rest));
            assert(v@.skip(j2 as int) == "}}"@ + rest);
        }
    }
    let j3 = match expect_lit(v, j2, "}}") {
        Option::Some(j) => j,
        Option::None => {
            proof {
                assert forall|x: MatchResult, rest: Seq<char>| !follows(
                    v@,
                    i as int,
                    enc_result(x),
                    rest,
                ) by {
                    if follows(v@, i as int, enc_result(x), rest) {
                        assert(follows(v@, j2 as int, "}}"@, rest));
                        lemma_skip_concat(v@, j2 as int, "}}"@, rest);
                    }
                }
            }
            return Err(malformed("expected the end of a result"));
        },
    };
    proof {
        assert(v@.subrange(i as int, j3 as int) =~= v@.subrange(i as int, j1 as int)
            + v@.subrange(j1 as int, j2 as int) + v@.subrange(j2 as int, j3 as int));
        assert forall|x: MatchResult, rest: Seq<char>| follows(
            v@,
            i as int,
            enc_result(x),
            rest,
        ) implies v@.skip(j3 as int) == rest by {
            assert(follows(v@, j2 as int, "}}"@, rest));
            lemma_skip_concat(v@, j2 as int, "}}"@, rest);
        }
    }
    Ok((MatchResult::Basic(BasicMatchResult { message }), j3))
}

/// Every encoded condition starts with an opening brace.
proof fn lemma_enc_cond_first(x: Condition)
    ensures
        enc_cond(x).len() > 0,
        enc_cond(x)[0] == '{',
{
    reveal_strlit("{\"if_match\":");
    assert(enc_cond(x)[0] == "{\"if_match\":"@[0]);
}

/// Opening an encoded condition: its leading key stands first, and the
/// encoded rule follows it.
#[verifier::rlimit(100)]
#[verifier::spinoff_prover]
proof fn lemma_c_decomp(v: Seq<char>, i: int, x: Condition, rest: Seq<char>)
    requires
        follows(v, i, enc_cond(x), rest),
    ensures
        follows(
            v,
            i + "{\"if_match\":"@.len(),
            enc_matcher(x.if_match),
            ",\"then_result\":"@ + (enc_result(x.then_result) + (",\"output_input\":"@ + (enc_bool(x.output_input) + (",\"else_then\":"@ + ((match x.else_then { Option::None => "null"@, Option::Some(e) => enc_cond(*e) }) + ("}"@ + rest)))))),
        ),
        v.subrange(i, i + "{\"if_match\":"@.len()) == "{\"if_match\":"@,
{
    assert(enc_cond(x) + rest =~= "{\"if_match\":"@ + (enc_matcher(x.if_match) + (",\"then_result\":"@ + (enc_result(x.then_result) + (",\"output_input\":"@ + (enc_bool(x.output_input) + (",\"else_then\":"@ + ((match x.else_then { Option::None => "null"@, Option::Some(e) => enc_cond(*e) }) + ("}"@ + rest)))))))));
    lemma_skip_concat(v, i, "{\"if_match\":"@, enc_matcher(x.if_match) + (",\"then_result\":"@ + (enc_result(x.then_result) + (",\"output_input\":"@ + (enc_bool(x.output_input) + (",\"else_then\":"@ + ((match x.else_then { Option::None => "null"@, Option::Some(e) => enc_cond(*e) }) + ("}"@ + rest))))))));
}

/// The encoding of the elements of a condition list after the first `k`:
/// a comma before each one.
pub open spec fn sep_tail_c(cs: Seq<Condition>, k: int) -> Seq<char>
    decreases cs.len() - k,
{
    if k < 0 || k >= cs.len() {
        Seq::<char>::empty()
    } else {
        seq![','] + enc_cond(cs[k]) + sep_tail_c(cs, k + 1)
    }
}

/// The joined elements from `k` on are the `k`-th element followed by the
/// comma-separated tail.
proof fn lemma_enc_conds_decomp(cs: Seq<Condition>, k: int)
    requires
        0 <= k < cs.len(),
    ensures
        enc_conds_from(cs, k) == enc_cond(cs[k]) + sep_tail_c(cs, k + 1),
    decreases cs.len() - k,
{
    if k + 1 == cs.len() {
        assert(sep_tail_c(cs, k + 1) == Seq::<char>::empty());
        assert(enc_conds_from(cs, k) =~= enc_cond(cs[k]) + sep_tail_c(cs, k + 1));
    } else {
        lemma_enc_conds_decomp(cs, k + 1);
        assert(enc_conds_from(cs, k) =~= enc_cond(cs[k]) + sep_tail_c(cs, k + 1));
    }
}

/// Reads an encoded condition chain; wherever an encoded condition
/// stands, the read succeeds.
#[verifier::rlimit(100)]
#[verifier::spinoff_prover]
fn parse_cond(v: &Vec<char>, i: usize) -> (r: Result<(Condition, usize), Error>)
    ensures
        r is Ok ==> {
            &&& i < r->Ok_0.1 <= v@.len()
            &&& v@.subrange(i as int, r->Ok_0.1 as int) == enc_cond(r->Ok_0.0)
        },
        r is Err ==> r->Err_0 is MalformedConfig,
        forall|x: Condition, rest: Seq<char>|
            follows(v@, i as int, enc_cond(x), rest) ==> r is Ok && v@.skip(
                r->Ok_0.1 as int,
            ) == rest,
    decreases v@.len() - i,
{
    proof {
        reveal_strlit("{\"if_match\":");
        reveal_strlit("null");
    }
    let j1 = match expect_lit(v, i, "{\"if_match\":") {
        Option::Some(j) => j,
        Option::None => {
            proof {
            assert forall|x: Condition, rest: Seq<char>| !follows(
                v@,
                i as int,
                enc_cond(x),
                rest,
            ) by {
                if follows(v@, i as int, enc_cond(x), rest) {
                    lemma_c_decomp(v@, i as int, x, rest);
                }
            }
            }
            return Err(malformed("expected a condition"));
        },
    };
    proof {
            assert forall|x: Condition, rest: Seq<char>| follows(
                v@,
                i as int,
                enc_cond(x),
                rest,
            ) implies follows(v@, j1 as int, enc_matcher(x.if_match), (",\"then_result\":"@ + (enc_result(x.then_result) + (",\"output_input\":"@ + (enc_bool(x.output_input) + (",\"else_then\":"@ + ((match x.else_then { Option::None => "null"@, Option::Some(e) => enc_cond(*e) }) + ("}"@ + rest)))))))) by {
                lemma_c_decomp(v@, i as int, x, rest);
            }
    }
    let pm = match parse_matcher(v, j1) {
        Ok(p) => p,
        Err(e) => {
            return Err(e);
        },
    };
    let if_match = pm.0;
    let j2 = pm.1;
    proof {
            assert forall|x: Condition, rest: Seq<char>| follows(
                v@,
                i as int,
                enc_cond(x),
                rest,
            ) implies follows(v@, j2 as int, ",\"then_result\":"@, (enc_result(x.then_result) + (",\"output_input\":"@ + (enc_bool(x.output_input) + (",\"else_then\":"@ + ((match x.else_then { Option::None => "null"@, Option::Some(e) => enc_cond(*e) }) + ("}"@ + rest))))))) by {
                assert(follows(v@, j1 as int, enc_matcher(x.if_match), (",\"then_result\":"@ + (enc_result(x.then_result) + (",\"output_input\":"@ + (enc_bool(x.output_input) + (",\"else_then\":"@ + ((match x.else_then { Option::None => "null"@, Option::Some(e) => enc_cond(*e) }) + ("}"@ + rest)))))))));
                assert(v@.skip(j2 as int) == (",\"then_result\":"@ + (enc_result(x.then_result) + (",\"output_input\":"@ + (enc_bool(x.output_input) + (",\"else_then\":"@ + ((match x.else_then { Option::None => "null"@, Option::Some(e) => enc_cond(*e) }) + ("}"@ + rest))))))));
            }
    }
    let j3 = match expect_lit(v, j2, ",\"then_result\":") {
        Option::Some(j) => j,
        Option::None => {
            proof {
            assert forall|x: Condition, rest: Seq<char>| !follows(
                v@,
                i as int,
                enc_cond(x),
                rest,
            ) by {
                if follows(v@, i as int, enc_cond(x), rest) {
                    assert(follows(v@, j2 as int, ",\"then_result\":"@, (enc_result(x.then_result) + (",\"output_input\":"@ + (enc_bool(x.output_input) + (",\"else_then\":"@ + ((match x.else_then { Option::None => "null"@, Option::Some(e) => enc_cond(*e) }) + ("}"@ + rest))))))));
                    lemma_follows_step(v@, j2 as int, ",\"then_result\":"@, enc_result(x.then_result), ",\"output_input\":"@ + (enc_bool(x.output_input) + (",\"else_then\":"@ + ((match x.else_then { Option::None => "null"@, Option::Some(e) => enc_cond(*e) }) + ("}"@ + rest)))));
                }
            }
            }
            return Err(malformed("expected the result"));
        },
    };
    proof {
            assert forall|x: Condition, rest: Seq<char>| follows(
                v@,
                i as int,
                enc_cond(x),
                rest,
            ) implies follows(v@, j3 as int, enc_result(x.then_result), (",\"output_input\":"@ + (enc_bool(x.output_input) + (",\"else_then\":"@ + ((match x.else_then { Option::None => "null"@, Option::Some(e) => enc_cond(*e) }) + ("}"@ + rest)))))) by {
                assert(follows(v@, j2 as int, ",\"then_result\":"@, (enc_result(x.then_result) + (",\"output_input\":"@ + (enc_bool(x.output_input) + (",\"else_then\":"@ + ((match x.else_then { Option::None => "null"@, Option::Some(e) => enc_cond(*e) }) + ("}"@ + rest))))))));
                lemma_follows_step(v@, j2 as int, ",\"then_result\":"@, enc_result(x.then_result), ",\"output_input\":"@ + (enc_bool(x.output_input) + (",\"else_then\":"@ + ((match x.else_then { Option::None => "null"@, Option::Some(e) => enc_cond(*e) }) + ("}"@ + rest)))));
            }
    }
    let pr = match parse_result(v, j3) {
        Ok(p) => p,
        Err(e) => {
            return Err(e);
        },
    };
    let then_result = pr.0;
    let j4 = pr.1;
    proof {
            assert forall|x: Condition, rest: Seq<char>| follows(
                v@,
                i as int,
                enc_cond(x),
                rest,
            ) implies follows(v@, j4 as int, ",\"output_input\":"@, (enc_bool(x.output_input) + (",\"else_then\":"@ + ((match x.else_then { Option::None => "null"@, Option::Some(e) => enc_cond(*e) }) + ("}"@ + rest))))) by {
                assert(follows(v@, j3 as int, enc_result(x.then_result), (",\"output_input\":"@ + (enc_bool(x.output_input) + (",\"else_then\":"@ + ((match x.else_then { Option::None => "null"@, Option::Some(e) => enc_cond(*e) }) + ("}"@ + rest)))))));
                assert(v@.skip(j4 as int) == (",\"output_input\":"@ + (enc_bool(x.output_input) + (",\"else_then\":"@ + ((match x.else_then { Option::None => "null"@, Option::Some(e) => enc_cond(*e) }) + ("}"@ + rest))))));
            }
    }
    let j5 = match expect_lit(v, j4, ",\"output_input\":") {
        Option::Some(j) => j,
        Option::None => {
            proof {
            assert forall|x: Condition, rest: Seq<char>| !follows(
                v@,
                i as int,
                enc_cond(x),
                rest,
            ) by {
                if follows(v@, i as int, enc_cond(x), rest) {
                    assert(follows(v@, j4 as int, ",\"output_input\":"@, (enc_bool(x.output_input) + (",\"else_then\":"@ + ((match x.else_then { Option::None => "null"@, Option::Some(e) => enc_cond(*e) }) + ("}"@ + rest))))));
                    lemma_follows_step(v@, j4 as int, ",\"output_input\":"@, enc_bool(x.output_input), ",\"else_then\":"@ + ((match x.else_then { Option::None => "null"@, Option::Some(e) => enc_cond(*e) }) + ("}"@ + rest)));
                }
            }
            }
            return Err(malformed("expected the echo flag"));
        },
    };
    proof {
            assert forall|x: Condition, rest: Seq<char>| follows(
                v@,
                i as int,
                enc_cond(x),
                rest,
            ) implies follows(v@, j5 as int, enc_bool(x.output_input), (",\"else_then\":"@ + ((match x.else_then { Option::None => "null"@, Option::Some(e) => enc_cond(*e) }) + ("}"@ + rest)))) by {
                assert(follows(v@, j4 as int, ",\"output_input\":"@, (enc_bool(x.output_input) + (",\"else_then\":"@ + ((match x.else_then { Option::None => "null"@, Option::Some(e) => enc_cond(*e) }) + ("}"@ + rest))))));
                lemma_follows_step(v@, j4 as int, ",\"output_input\":"@, enc_bool(x.output_input), ",\"else_then\":"@ + ((match x.else_then { Option::None => "null"@, Option::Some(e) => enc_cond(*e) }) + ("}"@ + rest)));
            }
    }
    let pb = match parse_bool(v, j5) {
        Ok(p) => p,
        Err(e) => {
            return Err(e);
        },
    };
    let output_input = pb.0;
    let j6 = pb.1;
    proof {
            assert forall|x: Condition, rest: Seq<char>| follows(
                v@,
                i as int,
                enc_cond(x),
                rest,
            ) implies follows(v@, j6 as int, ",\"else_then\":"@, ((match x.else_then { Option::None => "null"@, Option::Some(e) => enc_cond(*e) }) + ("}"@ + rest))) by {
                assert(follows(v@, j5 as int, enc_bool(x.output_input), (",\"else_then\":"@ + ((match x.else_then { Option::None => "null"@, Option::Some(e) => enc_cond(*e) }) + ("}"@ + rest)))));
                assert(v@.skip(j6 as int) == (",\"else_then\":"@ + ((match x.else_then { Option::None => "null"@, Option::Some(e) => enc_cond(*e) }) + ("}"@ + rest))));
            }
    }
    let j7 = match expect_lit(v, j6, ",\"else_then\":") {
        Option::Some(j) => j,
        Option::None => {
            proof {
            assert forall|x: Condition, rest: Seq<char>| !follows(
                v@,
                i as int,
                enc_cond(x),
                rest,
            ) by {
                if follows(v@, i as int, enc_cond(x), rest) {
                    assert(follows(v@, j6 as int, ",\"else_then\":"@, ((match x.else_then { Option::None => "null"@, Option::Some(e) => enc_cond(*e) }) + ("}"@ + rest))));
                    lemma_follows_step(v@, j6 as int, ",\"else_then\":"@, (match x.else_then { Option::None => "null"@, Option::Some(e) => enc_cond(*e) }), "}"@ + rest);
                }
            }
            }
            return Err(malformed("expected the else branch"));
        },
    };
    proof {
            assert forall|x: Condition, rest: Seq<char>| follows(
                v@,
                i as int,
                enc_cond(x),
                rest,
            ) implies follows(v@, j7 as int, (match x.else_then { Option::None => "null"@, Option::Some(e) => enc_cond(*e) }), ("}"@ + rest)) by {
                assert(follows(v@, j6 as int, ",\"else_then\":"@, ((match x.else_then { Option::None => "null"@, Option::Some(e) => enc_cond(*e) }) + ("}"@ + rest))));
                lemma_follows_step(v@, j6 as int, ",\"else_then\":"@, (match x.else_then { Option::None => "null"@, Option::Some(e) => enc_cond(*e) }), "}"@ + rest);
            }
    }
    let else_then: Option<Box<Condition>>;
    let j8: usize;
    match expect_lit(v, j7, "null") {
        Option::Some(j) => {
            else_then = None;
            j8 = j;
            proof {
                assert forall|x: Condition, rest: Seq<char>| follows(
                    v@,
                    i as int,
                    enc_cond(x),
                    rest,
                ) implies follows(v@, j8 as int, "}"@, rest) by {
                    assert(follows(v@, j7 as int, (match x.else_then { Option::None => "null"@, Option::Some(e) => enc_cond(*e) }), ("}"@ + rest)));
                    match x.else_then {
                        Option::None => {
                            lemma_follows_step(v@, j7 as int, "null"@, "}"@, rest);
                        },
                        Option::Some(e) => {
                            lemma_enc_cond_first(*e);
                            assert(v@.skip(j7 as int)[0] == v@[j7 as int]);
                            assert((enc_cond(*e) + ("}"@ + rest))[0] == '{');
                            assert(v@[j7 as int] == "null"@[0]);
                            assert(false);
                        },
                    }
                }
            }
        },
        Option::None => {
            proof {
                assert forall|x: Condition, rest: Seq<char>| follows(
                    v@,
                    i as int,
                    enc_cond(x),
                    rest,
                ) implies (x.else_then is Some && follows(
                    v@,
                    j7 as int,
                    enc_cond(*x.else_then->0),
                    "}"@ + rest,
                )) by {
                    assert(follows(v@, j7 as int, (match x.else_then { Option::None => "null"@, Option::Some(e) => enc_cond(*e) }), ("}"@ + rest)));
                    match x.else_then {
                        Option::None => {
                            lemma_skip_concat(v@, j7 as int, "null"@, ("}"@ + rest));
                            assert(false);
                        },
                        Option::Some(e) => {
                        },
                    }
                }
            }
            match parse_cond(v, j7) {
                Ok(p) => {
                    else_then = Some(Box::new(p.0));
                    j8 = p.1;
                    proof {
                    assert forall|x: Condition, rest: Seq<char>| follows(
                        v@,
                        i as int,
                        enc_cond(x),
                        rest,
                    ) implies follows(v@, j8 as int, "}"@, rest) by {
                        assert(follows(v@, j7 as int, enc_cond(*x.else_then->0), ("}"@ + rest)));
                        assert(v@.skip(j8 as int) == ("}"@ + rest));
                    }
                    }
                },
                Err(e) => {
                    return Err(e);
                },
            }
        },
    }
    let j9 = match expect_lit(v, j8, "}") {
        Option::Some(j) => j,
        Option::None => {
            proof {
            assert forall|x: Condition, rest: Seq<char>| !follows(
                v@,
                i as int,
                enc_cond(x),
                rest,
            ) by {
                if follows(v@, i as int, enc_cond(x), rest) {
                    assert(follows(v@, j8 as int, "}"@, rest));
                    lemma_skip_concat(v@, j8 as int, "}"@, rest);
                }
            }
            }
            return Err(malformed("expected the end of a condition"));
        },
    };
    let c = Condition { if_match, then_result, output_input, else_then };
    proof {
        assert(v@.subrange(j7 as int, j8 as int) == (match c.else_then {
            Option::None => "null"@,
            Option::Some(e) => enc_cond(*e),
        }));
        assert(v@.subrange(i as int, j9 as int) =~= v@.subrange(i as int, j1 as int)
            + v@.subrange(j1 as int, j2 as int) + v@.subrange(j2 as int, j3 as int)
            + v@.subrange(j3 as int, j4 as int) + v@.subrange(j4 as int, j5 as int)
            + v@.subrange(j5 as int, j6 as int) + v@.subrange(j6 as int, j7 as int)
            + v@.subrange(j7 as int, j8 as int) + v@.subrange(j8 as int, j9 as int));
        assert forall|x: Condition, rest: Seq<char>| follows(
            v@,
            i as int,
            enc_cond(x),
            rest,
        ) implies v@.skip(j9 as int) == rest by {
            assert(follows(v@, j8 as int, "}"@, rest));
            lemma_skip_concat(v@, j8 as int, "}"@, rest);
        }
    }
    Ok((c, j9))
}

/// Appending a condition to a non-empty joined list appends a comma and
/// its encoding.
proof fn lemma_enc_conds_push(cs: Seq<Condition>, c: Condition, k: int)
    requires
        0 <= k < cs.len(),
    ensures
        enc_conds_from(cs.push(c), k) == enc_conds_from(cs, k) + seq![','] + enc_cond(c),
    decreases cs.len() - k,
{
    let p = cs.push(c);
    assert(p[k] == cs[k]);
    if k + 1 == cs.len() {
        assert(p[k + 1] == c);
        assert(enc_conds_from(p, k + 1) == enc_cond(c));
        assert(enc_conds_from(cs, k) == enc_cond(cs[k]));
        assert(enc_conds_from(p, k) =~= enc_conds_from(cs, k) + seq![','] + enc_cond(c));
    } else {
        lemma_enc_conds_push(cs, c, k + 1);
        assert(enc_conds_from(p, k) =~= enc_conds_from(cs, k) + seq![','] + enc_cond(c));
    }
}

/// Reads an encoded condition list; wherever an encoded list stands, the
/// read succeeds.
#[verifier::rlimit(100)]
#[verifier::spinoff_prover]
fn parse_cond_list(v: &Vec<char>, i: usize) -> (r: Result<(Vec<Condition>, usize), Error>)
    ensures
        r is Ok ==> {
            &&& i < r->Ok_0.1 <= v@.len()
            &&& v@.subrange(i as int, r->Ok_0.1 as int) == enc_cond_list(r->Ok_0.0@)
        },
        r is Err ==> r->Err_0 is MalformedConfig,
        forall|xs: Seq<Condition>, rest: Seq<char>|
            follows(v@, i as int, enc_cond_list(xs), rest) ==> r is Ok && v@.skip(
                r->Ok_0.1 as int,
            ) == rest,
    {
    if i >= v.len() {
        proof {
            assert forall|xs: Seq<Condition>, rest: Seq<char>| !follows(
                v@,
                i as int,
                enc_cond_list(xs),
                rest,
            ) by {
                if follows(v@, i as int, enc_cond_list(xs), rest) {
                    assert(v@.skip(i as int).len() == 0);
                    assert((enc_cond_list(xs) + rest).len() >= 2);
                }
            }
        }
        return Err(malformed("expected a list"));
    }
    if v[i] != '[' {
        proof {
            assert forall|xs: Seq<Condition>, rest: Seq<char>| !follows(
                v@,
                i as int,
                enc_cond_list(xs),
                rest,
            ) by {
                if follows(v@, i as int, enc_cond_list(xs), rest) {
                    assert(v@.skip(i as int)[0] == v@[i as int]);
                    assert((enc_cond_list(xs) + rest)[0] == '[');
                }
            }
        }
        return Err(malformed("expected a list"));
    }
    if i + 1 < v.len() && v[i + 1] == ']' {
        let cs: Vec<Condition> = Vec::new();
        proof {
            assert(enc_conds_from(cs@, 0) =~= Seq::<char>::empty());
            assert(v@.subrange(i as int, i as int + 2) =~= seq!['['] + enc_conds_from(
                cs@,
                0,
            ) + seq![']']);
            assert forall|xs: Seq<Condition>, rest: Seq<char>| follows(
                v@,
                i as int,
                enc_cond_list(xs),
                rest,
            ) implies v@.skip(i as int + 2) == rest by {
                assert((seq!['['] + enc_conds_from(xs, 0) + seq![']']) + rest =~= seq![
                    '[',
                ] + (enc_conds_from(xs, 0) + (seq![']'] + rest)));
                lemma_skip_concat(v@, i as int, seq!['['], enc_conds_from(xs, 0) + (seq![
                    ']',
                ] + rest));
                if xs.len() > 0 {
                    lemma_enc_conds_decomp(xs, 0);
                    lemma_enc_cond_first(xs[0]);
                    assert(v@.skip(i as int + 1)[0] == v@[i as int + 1]);
                    assert((enc_conds_from(xs, 0) + (seq![']'] + rest))[0] == '{');
                    assert(false);
                }
                assert(enc_conds_from(xs, 0) == Seq::<char>::empty());
                assert(v@.skip(i as int + 1) =~= seq![']'] + rest);
                lemma_skip_concat(v@, i as int + 1, seq![']'], rest);
            }
        }
        return Ok((cs, i + 2));
    }
    proof {
        assert forall|xs: Seq<Condition>, rest: Seq<char>| follows(
            v@,
            i as int,
            enc_cond_list(xs),
            rest,
        ) implies (xs.len() > 0 && follows(
            v@,
            i as int + 1,
            enc_cond(xs[0]),
            sep_tail_c(xs, 1) + (seq![']'] + rest),
        )) by {
            assert((seq!['['] + enc_conds_from(xs, 0) + seq![']']) + rest =~= seq!['['] + (
            enc_conds_from(xs, 0) + (seq![']'] + rest)));
            lemma_skip_concat(v@, i as int, seq!['['], enc_conds_from(xs, 0) + (seq![']']
                + rest));
            if xs.len() == 0 {
                assert(enc_conds_from(xs, 0) == Seq::<char>::empty());
                assert(v@.skip(i as int + 1) =~= seq![']'] + rest);
                assert(v@.skip(i as int + 1)[0] == v@[i as int + 1]);
                assert(false);
            }
            lemma_enc_conds_decomp(xs, 0);
            assert(enc_conds_from(xs, 0) + (seq![']'] + rest) =~= enc_cond(xs[0]) + (
            sep_tail_c(xs, 1) + (seq![']'] + rest)));
        }
    }
    let mut cs: Vec<Condition> = Vec::new();
    let p0 = match parse_cond(v, i + 1) {
        Ok(p) => p,
        Err(e) => {
            return Err(e);
        },
    };
    let mut j = p0.1;
    cs.push(p0.0);
    proof {
        assert(enc_conds_from(cs@, 0) == enc_cond(cs@[0]));
        assert(v@.subrange(i as int + 1, j as int) == enc_conds_from(cs@, 0));
    }
    loop
        invariant
            i as int + 1 <= j <= v@.len(),
            i < v@.len(),
            v@[i as int] == '[',
            cs@.len() >= 1,
            v@.subrange(i as int + 1, j as int) == enc_conds_from(cs@, 0),
            forall|xs: Seq<Condition>, rest: Seq<char>| #[trigger] follows(
                v@,
                i as int,
                enc_cond_list(xs),
                rest,
            ) ==> {
                &&& cs@.len() <= xs.len()
                &&& v@.skip(j as int) == sep_tail_c(xs, cs@.len() as int) + (seq![']'] + rest)
            },
        decreases v@.len() - j,
    {
        if j < v.len() && v[j] == ',' {
            proof {
                assert forall|xs: Seq<Condition>, rest: Seq<char>| #[trigger] follows(
                    v@,
                    i as int,
                    enc_cond_list(xs),
                    rest,
                ) implies (cs@.len() < xs.len() && follows(
                    v@,
                    j as int + 1,
                    enc_cond(xs[cs@.len() as int]),
                    sep_tail_c(xs, cs@.len() as int + 1) + (seq![']'] + rest),
                )) by {
                    let k = cs@.len() as int;
                    if k == xs.len() {
                        assert(sep_tail_c(xs, k) == Seq::<char>::empty());
                        assert(v@.skip(j as int) =~= seq![']'] + rest);
                        assert(v@.skip(j as int)[0] == v@[j as int]);
                        assert(false);
                    }
                    assert(sep_tail_c(xs, k) == seq![','] + enc_cond(xs[k]) + sep_tail_c(
                        xs,
                        k + 1,
                    ));
                    assert(sep_tail_c(xs, k) + (seq![']'] + rest) =~= seq![','] + (enc_cond(
                        xs[k],
                    ) + (sep_tail_c(xs, k + 1) + (seq![']'] + rest))));
                    lemma_skip_concat(v@, j as int, seq![','], enc_cond(xs[k]) + (
                    sep_tail_c(xs, k + 1) + (seq![']'] + rest)));
                }
            }
            let ghost ocs = cs@;
            let pk = match parse_cond(v, j + 1) {
                Ok(p) => p,
                Err(e) => {
                    return Err(e);
                },
            };
            let j2 = pk.1;
            proof {
                lemma_enc_conds_push(ocs, pk.0, 0);
                assert(v@.subrange(i as int + 1, j2 as int) =~= v@.subrange(
                    i as int + 1,
                    j as int,
                ) + seq![v@[j as int]] + v@.subrange(j as int + 1, j2 as int));
            }
            cs.push(pk.0);
            j = j2;
        } else if j < v.len() && v[j] == ']' {
            proof {
                assert(v@.subrange(i as int, j as int + 1) =~= seq!['['] + enc_conds_from(
                    cs@,
                    0,
                ) + seq![']']);
                assert forall|xs: Seq<Condition>, rest: Seq<char>| follows(
                    v@,
                    i as int,
                    enc_cond_list(xs),
                    rest,
                ) implies v@.skip(j as int + 1) == rest by {
                    let k = cs@.len() as int;
                    if k < xs.len() {
                        assert(sep_tail_c(xs, k) == seq![','] + enc_cond(xs[k])
                            + sep_tail_c(xs, k + 1));
                        assert(v@.skip(j as int)[0] == v@[j as int]);
                        assert((sep_tail_c(xs, k) + (seq![']'] + rest))[0] == ',');
                        assert(false);
                    }
                    assert(sep_tail_c(xs, k) == Seq::<char>::empty());
                    assert(v@.skip(j as int) =~= seq![']'] + rest);
                    lemma_skip_concat(v@, j as int, seq![']'], rest);
                }
            }
            return Ok((cs, j + 1));
        } else {
            proof {
                assert forall|xs: Seq<Condition>, rest: Seq<char>| !follows(
                    v@,
                    i as int,
                    enc_cond_list(xs),
                    rest,
                ) by {
                    if follows(v@, i as int, enc_cond_list(xs), rest) {
                        let k = cs@.len() as int;
                        if k < xs.len() {
                            assert(sep_tail_c(xs, k) == seq![','] + enc_cond(xs[k])
                                + sep_tail_c(xs, k + 1));
                            assert(v@.skip(j as int)[0] == v@[j as int]);
                            assert((sep_tail_c(xs, k) + (seq![']'] + rest))[0] == ',');
                        } else {
                            assert(sep_tail_c(xs, k) == Seq::<char>::empty());
                            assert(v@.skip(j as int) =~= seq![']'] + rest);
                            assert(v@.skip(j as int)[0] == v@[j as int]);
                        }
                    }
                }
            }
            return Err(malformed("expected a separator or the end of a list"));
        }
    }
}

/// Reads a whole encoded configuration; wherever one stands, the read
/// succeeds.
#[verifier::rlimit(100)]
#[verifier::spinoff_prover]
fn parse_config(v: &Vec<char>, i: usize) -> (r: Result<(Config, usize), Error>)
    ensures
        r is Ok ==> {
            &&& i < r->Ok_0.1 <= v@.len()
            &&& v@.subrange(i as int, r->Ok_0.1 as int) == enc_config(r->Ok_0.0)
        },
        r is Err ==> r->Err_0 is MalformedConfig,
        forall|x: Config, rest: Seq<char>|
            follows(v@, i as int, enc_config(x), rest) ==> r is Ok && v@.skip(
                r->Ok_0.1 as int,
            ) == rest,
{
    let j1 = match expect_lit(v, i, "{\"conditions\":") {
        Option::Some(j) => j,
        Option::None => {
            proof {
                assert forall|x: Config, rest: Seq<char>| !follows(
                    v@,
                    i as int,
                    enc_config(x),
                    rest,
                ) by {
                    if follows(v@, i as int, enc_config(x), rest) {
                        assert(enc_config(x) + rest =~= "{\"conditions\":"@ + (enc_cond_list(
                            x.conditions@,
                        ) + ("}"@ + rest)));
                        lemma_skip_concat(v@, i as int, "{\"conditions\":"@, enc_cond_list(
                            x.conditions@,
                        ) + ("}"@ + rest));
                    }
                }
            }
            return Err(malformed("expected a configuration"));
        },
    };
    proof {
        assert forall|x: Config, rest: Seq<char>| follows(
            v@,
            i as int,
            enc_config(x),
            rest,
        ) implies follows(
            v@,
            j1 as int,
            enc_cond_list(x.conditions@),
            "}"@ + rest,
        ) by {
            assert(enc_config(x) + rest =~= "{\"conditions\":"@ + (enc_cond_list(
                x.conditions@,
            ) + ("}"@ + rest)));
            lemma_skip_concat(v@, i as int, "{\"conditions\":"@, enc_cond_list(x.conditions@)
                + ("}"@ + rest));
        }
    }
    let pc = match parse_cond_list(v, j1) {
        Ok(p) => p,
        Err(e) => {
            return Err(e);
        },
    };
    let conditions = pc.0;
    let j2 = pc.1;
    proof {
        assert forall|x: Config, rest: Seq<char>| follows(
            v@,
            i as int,
            enc_config(x),
            rest,
        ) implies follows(v@, j2 as int, "}"@, rest) by {
            assert(follows(v@, j1 as int, enc_cond_list(x.conditions@), "}"@ + rest));
            assert(v@.skip(j2 as int) == "}"@ + rest);
        }
    }
    let j3 = match expect_lit(v, j2, "}") {
        Option::Some(j) => j,
        Option::None => {
            proof {
                assert forall|x: Config, rest: Seq<char>| !follows(
                    v@,
                    i as int,
                    enc_config(x),
                    rest,
                ) by {
                    if follows(v@, i as int, enc_config(x), rest) {
                        assert(follows(v@, j2 as int, "}"@, rest));
                        lemma_skip_concat(v@, j2 as int, "}"@, rest);
                    }
                }
            }
            return Err(malformed("expected the end of the document"));
        },
    };
    proof {
        assert(v@.subrange(i as int, j3 as int) =~= v@.subrange(i as int, j1 as int)
            + v@.subrange(j1 as int, j2 as int) + v@.subrange(j2 as int, j3 as int));
        assert forall|x: Config, rest: Seq<char>| follows(
            v@,
            i as int,
            enc_config(x),
            rest,
        ) implies v@.skip(j3 as int) == rest by {
            assert(follows(v@, j2 as int, "}"@, rest));
            lemma_skip_concat(v@, j2 as int, "}"@, rest);
        }
    }
    Ok((Config { conditions }, j3))
}

impl Config {
    /// Decodes a structured document. The decoder accepts exactly the
    /// canonical documents this engine writes: on success the input is,
    /// character for character, the encoding of the returned
    /// configuration, so encoding that configuration again reproduces the
    /// document verbatim; and on every document this engine writes, the
    /// decoding succeeds.
    pub fn from_json(s: &str) -> (r: Result<Config, Error>)
        ensures
            r is Ok ==> s@ == enc_config(r->Ok_0),
            r is Err ==> r->Err_0 is MalformedConfig,
            forall|c: Config| s@ == enc_config(c) ==> r is Ok,
    {
        let v = to_chars(s);
        proof {
            assert forall|c: Config| s@ == enc_config(c) implies follows(
                v@,
                0,
                enc_config(c),
                Seq::<char>::empty(),
            ) by {
                assert(v@.skip(0) =~= v@);
                assert(enc_config(c) + Seq::<char>::empty() =~= enc_config(c));
            }
        }
        match parse_config(&v, 0) {
            Ok(p) => {
                if p.1 == v.len() {
                    proof {
                        assert(v@.subrange(0, p.1 as int) =~= v@);
                    }
                    Ok(p.0)
                } else {
                    proof {
                        assert forall|c: Config| s@ != enc_config(c) by {
                            if s@ == enc_config(c) {
                                assert(follows(v@, 0, enc_config(c), Seq::<char>::empty()));
                                assert(v@.skip(p.1 as int) == Seq::<char>::empty());
                            }
                        }
                    }
                    Err(malformed("unexpected text after the document"))
                }
            },
            Err(e) => Err(e),
        }
    }
}

} // verus!
