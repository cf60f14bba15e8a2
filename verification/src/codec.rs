//! Serialization of an `Environment` to the `key=value` line format and
//! the parser back. Blank lines and lines starting with `#` or `!` are
//! skipped on decode; a line without `=` or with an empty key is
//! malformed; a duplicated key keeps its first position and the last
//! value. Encoding writes one `key=value\n` line per variable, and
//! decoding an encoded environment gives the environment back.

use vstd::prelude::*;

use crate::environment::{
    env_wf, find_key, has_key, is_line_term, lemma_find_key_props, lemma_upsert_wf, upsert,
    valid_key, valid_value, Environment,
};
use crate::errors::Error;

verus! {

/// Horizontal whitespace: what a blank line may consist of.
pub open spec fn is_ws(c: char) -> bool {
    c == ' ' || c == '\t'
}

/// A line holding nothing but horizontal whitespace (or nothing at all).
pub open spec fn is_blank_line(l: Seq<char>) -> bool {
    forall|i: int| 0 <= i < l.len() ==> is_ws(l[i])
}

/// A comment line: the first character marks the whole line as ignored.
pub open spec fn is_comment_line(l: Seq<char>) -> bool {
    l.len() > 0 && (l[0] == '#' || l[0] == '!')
}

/// The position of the first `=` in `l`; `l.len()` when there is none.
pub open spec fn first_eq(l: Seq<char>) -> nat
    decreases l.len(),
{
    if l.len() == 0 {
        0
    } else if l[0] == '=' {
        0
    } else {
        1 + first_eq(l.drop_first())
    }
}

/// The position of the first line terminator in `t`; `t.len()` when
/// there is none.
pub open spec fn first_line_term(t: Seq<char>) -> nat
    decreases t.len(),
{
    if t.len() == 0 {
        0
    } else if is_line_term(t[0]) {
        0
    } else {
        1 + first_line_term(t.drop_first())
    }
}

/// The key/value split of one line, if the line has the `key=value`
/// shape: a non-empty key before the first `=`, the rest the value.
pub open spec fn line_pair(l: Seq<char>) -> Option<(Seq<char>, Seq<char>)> {
    let i = first_eq(l);
    if i == 0 || i >= l.len() {
        None
    } else {
        Some((l.subrange(0, i as int), l.subrange(i as int + 1, l.len() as int)))
    }
}

/// `t` cut at every line terminator. The terminators themselves are
/// dropped, so `a\r\nb` yields `a`, an empty line, and `b`.
pub open spec fn split_lines(t: Seq<char>) -> Seq<Seq<char>>
    decreases t.len(),
{
    let i = first_line_term(t);
    if i >= t.len() {
        seq![t]
    } else {
        seq![t.subrange(0, i as int)] + split_lines(t.subrange(i as int + 1, t.len() as int))
    }
}

/// The lines folded into an environment, starting from `acc`: blank and
/// comment lines are skipped, a `key=value` line upserts, anything else
/// makes the whole text malformed.
pub open spec fn decode_lines(
    acc: Seq<(Seq<char>, Seq<char>)>,
    lines: Seq<Seq<char>>,
) -> Option<Seq<(Seq<char>, Seq<char>)>>
    decreases lines.len(),
{
    if lines.len() == 0 {
        Some(acc)
    } else if is_blank_line(lines[0]) || is_comment_line(lines[0]) {
        decode_lines(acc, lines.drop_first())
    } else {
        match line_pair(lines[0]) {
            Some(p) => decode_lines(upsert(acc, p.0, p.1), lines.drop_first()),
            None => None,
        }
    }
}

/// What `decode` accepts and returns: the environment described by the
/// text, or nothing when some line is malformed.
pub open spec fn decode_spec(t: Seq<char>) -> Option<Seq<(Seq<char>, Seq<char>)>> {
    decode_lines(Seq::empty(), split_lines(t))
}

/// One stored line for one variable, terminator included.
pub open spec fn encode_pair(k: Seq<char>, v: Seq<char>) -> Seq<char> {
    k + seq!['='] + v + seq!['\n']
}

/// What `encode` produces: the variables' lines, in order.
pub open spec fn encode_spec(s: Seq<(Seq<char>, Seq<char>)>) -> Seq<char>
    decreases s.len(),
{
    if s.len() == 0 {
        Seq::empty()
    } else {
        encode_pair(s[0].0, s[0].1) + encode_spec(s.drop_first())
    }
}

/// `first_eq` really is the position of the first `=`.
pub proof fn lemma_first_eq_props(l: Seq<char>)
    ensures
        first_eq(l) <= l.len(),
        forall|m: int| 0 <= m < first_eq(l) ==> l[m] != '=',
        first_eq(l) < l.len() ==> l[first_eq(l) as int] == '=',
    decreases l.len(),
{
    if l.len() > 0 && l[0] != '=' {
        lemma_first_eq_props(l.drop_first());
        assert(forall|m: int| 1 <= m < l.len() ==> l[m] == l.drop_first()[m - 1]);
    }
}

/// A position with no `=` before it and `=` at it (or the end, with no
/// `=` anywhere before) is exactly `first_eq`.
pub proof fn lemma_first_eq_at(l: Seq<char>, i: int)
    requires
        0 <= i <= l.len(),
        forall|m: int| 0 <= m < i ==> l[m] != '=',
        i < l.len() ==> l[i] == '=',
    ensures
        first_eq(l) == i,
{
    lemma_first_eq_props(l);
    let f = first_eq(l) as int;
    if f < i {
        assert(l[f] != '=');
    } else if f > i {
        assert(l[i] != '=');
    }
}

/// `first_line_term` really is the position of the first terminator.
pub proof fn lemma_first_line_term_props(t: Seq<char>)
    ensures
        first_line_term(t) <= t.len(),
        forall|m: int| 0 <= m < first_line_term(t) ==> !is_line_term(t[m]),
        first_line_term(t) < t.len() ==> is_line_term(t[first_line_term(t) as int]),
    decreases t.len(),
{
    if t.len() > 0 && !is_line_term(t[0]) {
        lemma_first_line_term_props(t.drop_first());
        assert(forall|m: int| 1 <= m < t.len() ==> t[m] == t.drop_first()[m - 1]);
    }
}

/// A position with no terminator before it and a terminator at it (or
/// the end, with none anywhere) is exactly `first_line_term`.
pub proof fn lemma_first_line_term_at(t: Seq<char>, i: int)
    requires
        0 <= i <= t.len(),
        forall|m: int| 0 <= m < i ==> !is_line_term(t[m]),
        i < t.len() ==> is_line_term(t[i]),
    ensures
        first_line_term(t) == i,
{
    lemma_first_line_term_props(t);
    let f = first_line_term(t) as int;
    if f < i {
        assert(!is_line_term(t[f]));
    } else if f > i {
        assert(!is_line_term(t[i]));
    }
}

/// How `split_lines` opens up at the first terminator position.
pub proof fn lemma_split_lines_step(t: Seq<char>, i: int)
    requires
        0 <= i <= t.len(),
        forall|m: int| 0 <= m < i ==> !is_line_term(t[m]),
        i < t.len() ==> is_line_term(t[i]),
    ensures
        i == t.len() ==> split_lines(t) == seq![t],
        i < t.len() ==> split_lines(t) == seq![t.subrange(0, i)] + split_lines(
            t.subrange(i + 1, t.len() as int),
        ),
{
    lemma_first_line_term_at(t, i);
}

/// The end of the line starting at `pos`: the first terminator at or
/// after `pos`, or the end of the text.
fn find_line_end(text: &str, pos: usize) -> (j: usize)
    requires
        pos <= text@.len(),
    ensures
        pos <= j <= text@.len(),
        forall|m: int| pos <= m < j ==> !is_line_term(text@[m]),
        j < text@.len() ==> is_line_term(text@[j as int]),
{
    let n = text.unicode_len();
    let mut j: usize = pos;
    while j < n
        invariant
            n == text@.len(),
            pos <= j <= n,
            forall|m: int| pos <= m < j ==> !is_line_term(text@[m]),
        decreases n - j,
    {
        let c = text.get_char(j);
        if c == '\n' || c == '\r' {
            return j;
        }
        j += 1;
    }
    j
}

/// Whether the characters in `[from, to)` are all horizontal whitespace.
fn span_is_blank(text: &str, from: usize, to: usize) -> (r: bool)
    requires
        from <= to <= text@.len(),
    ensures
        r == is_blank_line(text@.subrange(from as int, to as int)),
{
    let ghost l = text@.subrange(from as int, to as int);
    let mut i: usize = from;
    while i < to
        invariant
            from <= i <= to <= text@.len(),
            l == text@.subrange(from as int, to as int),
            forall|m: int| from <= m < i ==> is_ws(text@[m]),
        decreases to - i,
    {
        let c = text.get_char(i);
        if !(c == ' ' || c == '\t') {
            proof {
                assert(l[i - from] == text@[i as int]);
            }
            return false;
        }
        i += 1;
    }
    proof {
        assert forall|m: int| 0 <= m < l.len() implies is_ws(l[m]) by {
            assert(l[m] == text@[from + m]);
        }
    }
    true
}

/// The first `=` in `[from, to)`, if there is one.
fn find_eq_in(text: &str, from: usize, to: usize) -> (r: Option<usize>)
    requires
        from <= to <= text@.len(),
    ensures
        match r {
            Some(p) => from <= p < to && text@[p as int] == '=' && forall|m: int|
                from <= m < p ==> text@[m] != '=',
            None => forall|m: int| from <= m < to ==> text@[m] != '=',
        },
{
    let mut i: usize = from;
    while i < to
        invariant
            from <= i <= to <= text@.len(),
            forall|m: int| from <= m < i ==> text@[m] != '=',
        decreases to - i,
    {
        let c = text.get_char(i);
        if c == '=' {
            return Some(i);
        }
        i += 1;
    }
    None
}

/// Parse `key=value` lines into an environment. Exactly the texts that
/// `decode_spec` accepts are accepted, with the same result, and what
/// comes out is always well-formed; any other text is reported
/// malformed.
pub fn decode(text: &str) -> (r: Result<Environment, Error>)
    ensures
        match r {
            Ok(env) => decode_spec(text@) == Some(env@) && env_wf(env@),
            Err(e) => e == Error::DecodeError && decode_spec(text@) is None,
        },
{
    let n = text.unicode_len();
    let mut env = Environment::new();
    let mut pos: usize = 0;
    proof {
        assert(text@.skip(0) =~= text@);
    }
    loop
        invariant_except_break
            n == text@.len(),
            pos <= n,
            env_wf(env@),
            decode_lines(env@, split_lines(text@.skip(pos as int))) == decode_spec(text@),
        ensures
            env_wf(env@),
            Some(env@) == decode_spec(text@),
        decreases n - pos,
    {
        let j = find_line_end(text, pos);
        let ghost t = text@.skip(pos as int);
        let ghost l = text@.subrange(pos as int, j as int);
        proof {
            assert forall|m: int| 0 <= m < j - pos implies !is_line_term(t[m]) by {
                assert(t[m] == text@[pos + m]);
            }
            if j < n {
                assert(t[j - pos] == text@[j as int]);
            }
            lemma_split_lines_step(t, j - pos as int);
            assert(t.subrange(0, j - pos as int) =~= l);
            if j < n {
                assert(t.subrange(j - pos as int + 1, t.len() as int) =~= text@.skip(j + 1));
            } else {
                assert(t =~= l);
            }
        }
        let ghost env0 = env@;
        let ghost mut kg = Seq::<char>::empty();
        let ghost mut vg = Seq::<char>::empty();
        let blank = span_is_blank(text, pos, j);
        let mut skip_line = blank;
        if !blank {
            proof {
                if l.len() == 0 {
                    assert(is_blank_line(l));
                }
            }
            let c0 = text.get_char(pos);
            proof {
                assert(l[0] == text@[pos as int]);
            }
            if c0 == '#' || c0 == '!' {
                skip_line = true;
            } else {
                match find_eq_in(text, pos, j) {
                    Some(p) => {
                        if p == pos {
                            proof {
                                assert(l[0] == text@[pos as int]);
                                lemma_first_eq_at(l, 0);
                            }
                            return Err(Error::DecodeError);
                        }
                        proof {
                            assert forall|m: int| 0 <= m < p - pos implies l[m] != '=' by {
                                assert(l[m] == text@[pos + m]);
                            }
                            assert(l[p - pos] == text@[p as int]);
                            lemma_first_eq_at(l, p - pos as int);
                        }
                        let key = String::from_str(text.substring_char(pos, p));
                        let value = String::from_str(text.substring_char(p + 1, j));
                        proof {
                            kg = key@;
                            vg = value@;
                            assert(key@ =~= l.subrange(0, p - pos as int));
                            assert(value@ =~= l.subrange(p - pos as int + 1, l.len() as int));
                            assert(line_pair(l) == Some((kg, vg)));
                            // The slices of an unescaped line form a valid pair.
                            assert(valid_key(kg)) by {
                                assert(kg[0] == l[0]);
                                assert forall|m: int| 0 <= m < kg.len() implies kg[m] != '='
                                    && !is_line_term(kg[m]) by {
                                    assert(kg[m] == text@[pos + m]);
                                }
                            }
                            assert(valid_value(vg)) by {
                                assert forall|m: int| 0 <= m < vg.len() implies !is_line_term(
                                    vg[m],
                                ) by {
                                    assert(vg[m] == text@[p + 1 + m]);
                                }
                            }
                            lemma_upsert_wf(env@, key@, value@);
                        }
                        env.set_var(key, value);
                    },
                    None => {
                        proof {
                            assert forall|m: int| 0 <= m < l.len() implies l[m] != '=' by {
                                assert(l[m] == text@[pos + m]);
                            }
                            lemma_first_eq_at(l, l.len() as int);
                            if l.len() == 0 {
                                assert(is_blank_line(l));
                            }
                        }
                        return Err(Error::DecodeError);
                    },
                }
            }
        }
        proof {
            let lines = split_lines(t);
            if j < n {
                assert(lines == seq![l] + split_lines(text@.skip(j + 1)));
                assert(lines[0] == l);
                assert(lines.drop_first() =~= split_lines(text@.skip(j + 1)));
            } else {
                assert(lines == seq![l]);
                assert(lines[0] == l);
                assert(lines.drop_first() =~= Seq::<Seq<char>>::empty());
            }
            if skip_line {
                assert(is_blank_line(l) || is_comment_line(l));
                assert(env@ == env0);
                assert(decode_lines(env0, lines) == decode_lines(env@, lines.drop_first()));
            } else {
                assert(!is_blank_line(l) && !is_comment_line(l));
                assert(line_pair(l) == Some((kg, vg)));
                assert(env@ == upsert(env0, kg, vg));
                assert(decode_lines(env0, lines) == decode_lines(env@, lines.drop_first()));
            }
            assert(decode_lines(env@, lines.drop_first()) == decode_spec(text@));
        }
        if j == n {
            proof {
                assert(decode_lines(env@, Seq::<Seq<char>>::empty()) == Some(env@));
            }
            break;
        }
        pos = j + 1;
    }
    Ok(env)
}

/// Serialize `env` as one `key=value` line per variable, in order.
pub fn encode(env: &Environment) -> (r: String)
    ensures
        r@ == encode_spec(env@),
{
    let mut out = String::new();
    let n = env.vars.len();
    let mut i: usize = 0;
    proof {
        reveal_strlit("=");
        reveal_strlit("\n");
        assert(env@.skip(0) =~= env@);
        assert(out@ + encode_spec(env@) =~= encode_spec(env@));
    }
    while i < n
        invariant
            n == env.vars.len(),
            i <= n,
            out@ + encode_spec(env@.skip(i as int)) == encode_spec(env@),
        decreases n - i,
    {
        proof {
            reveal_strlit("=");
            reveal_strlit("\n");
        }
        let ghost prev = out@;
        out.append(env.vars[i].0.as_str());
        out.append("=");
        out.append(env.vars[i].1.as_str());
        out.append("\n");
        proof {
            let s = env@;
            let rest = s.skip(i as int);
            assert(rest.len() > 0);
            assert(rest[0] == s[i as int]);
            assert(rest.drop_first() =~= s.skip(i as int + 1));
            assert(("=")@ =~= seq!['=']);
            assert(("\n")@ =~= seq!['\n']);
            assert(out@ =~= prev + encode_pair(s[i as int].0, s[i as int].1));
            assert(encode_spec(rest) == encode_pair(rest[0].0, rest[0].1) + encode_spec(
                rest.drop_first(),
            ));
            assert(out@ + encode_spec(s.skip(i as int + 1)) =~= prev + encode_spec(rest));
        }
        i += 1;
    }
    proof {
        assert(env@.skip(n as int) =~= Seq::<(Seq<char>, Seq<char>)>::empty());
        assert(out@ + encode_spec(env@.skip(n as int)) =~= out@);
    }
    out
}

/// One displayed line for one variable, as the show command prints it.
pub open spec fn render_pair(k: Seq<char>, v: Seq<char>) -> Seq<char> {
    k + seq![' ', '=', ' '] + v + seq!['\n']
}

/// What `render_env` produces: one `key = value` line per variable.
pub open spec fn render_spec(s: Seq<(Seq<char>, Seq<char>)>) -> Seq<char>
    decreases s.len(),
{
    if s.len() == 0 {
        Seq::empty()
    } else {
        render_pair(s[0].0, s[0].1) + render_spec(s.drop_first())
    }
}

/// Lay `env` out for display, one `key = value` line per variable.
pub fn render_env(env: &Environment) -> (r: String)
    ensures
        r@ == render_spec(env@),
{
    let mut out = String::new();
    let n = env.vars.len();
    let mut i: usize = 0;
    proof {
        assert(env@.skip(0) =~= env@);
        assert(out@ + render_spec(env@) =~= render_spec(env@));
    }
    while i < n
        invariant
            n == env.vars.len(),
            i <= n,
            out@ + render_spec(env@.skip(i as int)) == render_spec(env@),
        decreases n - i,
    {
        proof {
            reveal_strlit(" = ");
            reveal_strlit("\n");
        }
        let ghost prev = out@;
        out.append(env.vars[i].0.as_str());
        out.append(" = ");
        out.append(env.vars[i].1.as_str());
        out.append("\n");
        proof {
            let s = env@;
            let rest = s.skip(i as int);
            assert(rest.len() > 0);
            assert(rest[0] == s[i as int]);
            assert(rest.drop_first() =~= s.skip(i as int + 1));
            assert((" = ")@ =~= seq![' ', '=', ' ']);
            assert(("\n")@ =~= seq!['\n']);
            assert(out@ =~= prev + render_pair(s[i as int].0, s[i as int].1));
            assert(render_spec(rest) == render_pair(rest[0].0, rest[0].1) + render_spec(
                rest.drop_first(),
            ));
            assert(out@ + render_spec(s.skip(i as int + 1)) =~= prev + render_spec(rest));
        }
        i += 1;
    }
    proof {
        assert(env@.skip(n as int) =~= Seq::<(Seq<char>, Seq<char>)>::empty());
        assert(out@ + render_spec(env@.skip(n as int)) =~= out@);
    }
    out
}

/// Decoding the encoding of `env`, fold started at `acc`, appends `env`
/// to `acc`, provided no key of `env` collides with `acc` or repeats.
proof fn lemma_decode_lines_encode(
    acc: Seq<(Seq<char>, Seq<char>)>,
    env: Seq<(Seq<char>, Seq<char>)>,
)
    requires
        env_wf(env),
        forall|i: int| 0 <= i < env.len() ==> !has_key(acc, #[trigger] env[i].0),
    ensures
        decode_lines(acc, split_lines(encode_spec(env))) == Some(acc + env),
    decreases env.len(),
{
    if env.len() == 0 {
        let t = encode_spec(env);
        assert(t =~= Seq::<char>::empty());
        lemma_first_line_term_at(t, 0);
        let lines = split_lines(t);
        assert(lines == seq![t]);
        assert(lines.len() == 1);
        assert(lines[0] == t);
        assert(is_blank_line(lines[0]));
        assert(lines.drop_first() =~= Seq::<Seq<char>>::empty());
        assert(decode_lines(acc, lines.drop_first()) == Some(acc));
        assert(decode_lines(acc, lines) == Some(acc));
        assert(acc + env =~= acc);
    } else {
        let k = env[0].0;
        let v = env[0].1;
        let line = k + seq!['='] + v;
        let rest = encode_spec(env.drop_first());
        let t = encode_spec(env);
        assert(valid_key(k) && valid_value(v));
        assert(t =~= line + seq!['\n'] + rest);
        // The first line terminator sits right after the first pair's line.
        assert forall|m: int| 0 <= m < line.len() implies !is_line_term(t[m]) by {
            if m < k.len() {
                assert(line[m] == k[m]);
            } else if m == k.len() {
                assert(line[m] == '=');
            } else {
                assert(line[m] == v[m - k.len() - 1]);
            }
        }
        assert(is_line_term(t[line.len() as int]));
        lemma_split_lines_step(t, line.len() as int);
        assert(t.subrange(0, line.len() as int) =~= line);
        assert(t.subrange(line.len() as int + 1, t.len() as int) =~= rest);
        let lines = split_lines(t);
        assert(lines == seq![line] + split_lines(rest));
        assert(lines[0] == line);
        assert(lines.drop_first() =~= split_lines(rest));
        // The line parses back to exactly the first pair.
        assert(line[k.len() as int] == '=');
        assert(!is_ws('='));
        assert(!is_blank_line(line));
        assert(line[0] == k[0]);
        assert(!is_comment_line(line));
        assert forall|m: int| 0 <= m < k.len() implies line[m] != '=' by {
            assert(line[m] == k[m]);
        }
        lemma_first_eq_at(line, k.len() as int);
        assert(line.subrange(0, k.len() as int) =~= k);
        assert(line.subrange(k.len() as int + 1, line.len() as int) =~= v);
        assert(line_pair(line) == Some((k, v)));
        // The upsert appends, since `k` is new to `acc`.
        lemma_find_key_props(acc, k);
        assert(!has_key(acc, k));
        let acc2 = acc.push((k, v));
        assert(upsert(acc, k, v) == acc2);
        // The tail satisfies the same premises against the grown prefix.
        assert forall|i: int| 0 <= i < env.drop_first().len() implies !has_key(
            acc2,
            #[trigger] env.drop_first()[i].0,
        ) by {
            let kd = env.drop_first()[i].0;
            assert(kd == env[i + 1].0);
            assert(env[0].0 != env[i + 1].0);
            lemma_find_key_props(acc2, kd);
            match find_key(acc2, kd) {
                Some(m) => {
                    if m < acc.len() {
                        lemma_find_key_props(acc, kd);
                        assert(acc[m].0 == kd);
                        assert(has_key(acc, kd));
                        assert(!has_key(acc, env[i + 1].0));
                    } else {
                        assert(acc2[m].0 == k);
                    }
                },
                None => {},
            }
        }
        assert(env_wf(env.drop_first())) by {
            assert(forall|i: int, j: int|
                0 <= i < j < env.drop_first().len() ==> env.drop_first()[i] == env[i + 1]
                    && env.drop_first()[j] == env[j + 1]);
            assert(forall|i: int|
                0 <= i < env.drop_first().len() ==> #[trigger] env.drop_first()[i] == env[i + 1]);
        }
        lemma_decode_lines_encode(acc2, env.drop_first());
        assert(decode_lines(acc, lines) == decode_lines(acc2, split_lines(rest)));
        assert(acc2 + env.drop_first() =~= acc + env);
    }
}

/// Round trip: decoding an encoded well-formed environment gives back
/// exactly the same keys, values and order.
pub proof fn lemma_encode_decode(env: Seq<(Seq<char>, Seq<char>)>)
    requires
        env_wf(env),
    ensures
        decode_spec(encode_spec(env)) == Some(env),
{
    let acc = Seq::<(Seq<char>, Seq<char>)>::empty();
    assert forall|i: int| 0 <= i < env.len() implies !has_key(acc, #[trigger] env[i].0) by {
        lemma_find_key_props(acc, env[i].0);
    }
    lemma_decode_lines_encode(acc, env);
    assert(acc + env =~= env);
}

} // verus!
