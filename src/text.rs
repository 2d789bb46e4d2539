use vstd::prelude::*;
use vstd::utf8::{encode_utf8, encode_utf8_decode_utf8};

verus! {

/// Whether two string slices hold the same characters.
pub(crate) fn str_eq(a: &str, b: &str) -> (r: bool)
    ensures
        r == (a@ == b@),
{
    let x = a.as_bytes();
    let y = b.as_bytes();
    proof {
        encode_utf8_decode_utf8(a@);
        encode_utf8_decode_utf8(b@);
        assert(x@ == encode_utf8(a@));
        assert(y@ == encode_utf8(b@));
    }
    if x.len() != y.len() {
        return false;
    }
    let n = x.len();
    let mut i: usize = 0;
    while i < n
        invariant
            x@ == encode_utf8(a@),
            y@ == encode_utf8(b@),
            n == x@.len(),
            n == y@.len(),
            i <= n,
            forall|k: int| 0 <= k < i ==> #[trigger] x@[k] == y@[k],
        decreases n - i,
    {
        if x[i] != y[i] {
            return false;
        }
        i += 1;
    }
    proof {
        assert(x@ =~= y@);
    }
    true
}

/// The five characters that text and attribute values cannot hold as they are.
pub open spec fn is_reserved(c: char) -> bool {
    c == '&' || c == '<' || c == '>' || c == '"' || c == '\''
}

/// The entity that stands for a reserved character.
pub open spec fn entity_of(c: char) -> Seq<char> {
    if c == '&' {
        seq!['&', 'a', 'm', 'p', ';']
    } else if c == '<' {
        seq!['&', 'l', 't', ';']
    } else if c == '>' {
        seq!['&', 'g', 't', ';']
    } else if c == '"' {
        seq!['&', 'q', 'u', 'o', 't', ';']
    } else {
        seq!['&', 'a', 'p', 'o', 's', ';']
    }
}

/// The escaped form of one character: a reserved character becomes its
/// entity, any other stays as it is.
pub open spec fn escape_char(c: char) -> Seq<char> {
    if is_reserved(c) {
        entity_of(c)
    } else {
        seq![c]
    }
}

/// The escaped form of `s`, character by character.
pub open spec fn escape_spec(s: Seq<char>) -> Seq<char>
    decreases s.len(),
{
    if s.len() == 0 {
        Seq::empty()
    } else {
        escape_spec(s.drop_last()) + escape_char(s.last())
    }
}

/// Whether `s` begins with `p`.
pub open spec fn starts_with(s: Seq<char>, p: Seq<char>) -> bool {
    p.len() <= s.len() && s.subrange(0, p.len() as int) == p
}

/// The reserved character whose entity starts `s`, if any.
pub open spec fn entity(s: Seq<char>) -> Option<char> {
    if starts_with(s, entity_of('<')) {
        Some('<')
    } else if starts_with(s, entity_of('>')) {
        Some('>')
    } else if starts_with(s, entity_of('&')) {
        Some('&')
    } else if starts_with(s, entity_of('\'')) {
        Some('\'')
    } else if starts_with(s, entity_of('"')) {
        Some('"')
    } else {
        None
    }
}

/// The text that `s` stands for once each entity is read back, or `None`
/// where an `&` starts no entity.
pub open spec fn unescape_spec(s: Seq<char>) -> Option<Seq<char>>
    decreases s.len(),
{
    if s.len() == 0 {
        Some(Seq::empty())
    } else if s[0] == '&' {
        match entity(s) {
            Some(c) => match unescape_spec(s.subrange(entity_of(c).len() as int, s.len() as int)) {
                Some(r) => Some(seq![c] + r),
                None => None,
            },
            None => None,
        }
    } else {
        match unescape_spec(s.drop_first()) {
            Some(r) => Some(seq![s[0]] + r),
            None => None,
        }
    }
}

proof fn lemma_escape_prepend(c: char, s: Seq<char>)
    ensures
        escape_spec(seq![c] + s) == escape_char(c) + escape_spec(s),
    decreases s.len(),
{
    if s.len() > 0 {
        lemma_escape_prepend(c, s.drop_last());
        assert((seq![c] + s).drop_last() =~= seq![c] + s.drop_last());
        assert((seq![c] + s).last() == s.last());
        assert(escape_char(c) + escape_spec(s.drop_last()) + escape_char(s.last()) =~= escape_char(c)
            + (escape_spec(s.drop_last()) + escape_char(s.last())));
    } else {
        assert(seq![c] + s =~= seq![c]);
        assert(seq![c].drop_last() =~= Seq::<char>::empty());
        assert(escape_spec(Seq::<char>::empty()) == Seq::<char>::empty());
        assert(Seq::<char>::empty() + escape_char(c) =~= escape_char(c));
        assert(escape_char(c) + Seq::<char>::empty() =~= escape_char(c));
    }
}

proof fn lemma_unescape_entity(c: char, rest: Seq<char>)
    ensures
        unescape_spec(escape_char(c) + rest) == match unescape_spec(rest) {
            Some(r) => Some(seq![c] + r),
            None => None,
        },
{
    let e = escape_char(c);
    let s = e + rest;
    if is_reserved(c) {
        assert(s.subrange(0, e.len() as int) =~= e);
        assert(s.subrange(e.len() as int, s.len() as int) =~= rest);
        assert(s[0] == '&');
        assert(s[1] == e[1]);
        assert(s[2] == e[2]);
        if starts_with(s, entity_of('<')) {
            assert(s.subrange(0, 4)[1] == s[1]);
            assert(s.subrange(0, 4)[2] == s[2]);
        }
        if starts_with(s, entity_of('>')) {
            assert(s.subrange(0, 4)[1] == s[1]);
        }
        if starts_with(s, entity_of('&')) {
            assert(s.subrange(0, 5)[1] == s[1]);
            assert(s.subrange(0, 5)[2] == s[2]);
        }
        if starts_with(s, entity_of('\'')) {
            assert(s.subrange(0, 6)[1] == s[1]);
            assert(s.subrange(0, 6)[2] == s[2]);
        }
    } else {
        assert(s[0] == c);
        assert(s.drop_first() =~= rest);
    }
}

/// Escaping round trip: reading back the escaped form of any text gives the
/// text itself.
pub proof fn lemma_escape_round_trip(s: Seq<char>)
    ensures
        unescape_spec(escape_spec(s)) == Some(s),
    decreases s.len(),
{
    if s.len() > 0 {
        let rest = s.drop_first();
        assert(s =~= seq![s[0]] + rest);
        lemma_escape_prepend(s[0], rest);
        lemma_escape_round_trip(rest);
        lemma_unescape_entity(s[0], escape_spec(rest));
    } else {
        assert(escape_spec(s) =~= Seq::<char>::empty());
    }
}

/// Escaping touches only the reserved characters: text without any of them
/// escapes to itself.
pub proof fn lemma_escape_plain(s: Seq<char>)
    requires
        forall|i: int| 0 <= i < s.len() ==> !is_reserved(#[trigger] s[i]),
    ensures
        escape_spec(s) == s,
    decreases s.len(),
{
    if s.len() > 0 {
        let rest = s.drop_last();
        assert forall|i: int| 0 <= i < rest.len() implies !is_reserved(#[trigger] rest[i]) by {
            assert(rest[i] == s[i]);
        }
        lemma_escape_plain(rest);
        assert(!is_reserved(s[s.len() - 1]));
        assert(rest + seq![s.last()] =~= s);
    }
}

/// The result of reading back `tail` once `head` is already read.
pub open spec fn read_on(head: Seq<char>, tail: Option<Seq<char>>) -> Option<Seq<char>> {
    match tail {
        Some(t) => Some(head + t),
        None => None,
    }
}

/// The view of an optional string.
pub open spec fn opt_string_view(o: Option<String>) -> Option<Seq<char>> {
    match o {
        Some(t) => Some(t@),
        None => None,
    }
}

/// Escapes `s`: each of `&`, `<`, `>`, `"` and `'` becomes its entity, and
/// every other character is kept.
pub fn escape(s: &str) -> (r: String)
    ensures
        r@ == escape_spec(s@),
{
    let n = s.unicode_len();
    let mut out = String::new();
    let mut i: usize = 0;
    while i < n
        invariant
            n == s@.len(),
            i <= n,
            out@ == escape_spec(s@.take(i as int)),
        decreases n - i,
    {
        let c = s.get_char(i);
        proof {
            assert(s@.take(i + 1).drop_last() =~= s@.take(i as int));
            assert(s@.take(i + 1).last() == c);
            reveal_strlit("&amp;");
            reveal_strlit("&lt;");
            reveal_strlit("&gt;");
            reveal_strlit("&quot;");
            reveal_strlit("&apos;");
            assert("&amp;"@ =~= entity_of('&'));
            assert("&lt;"@ =~= entity_of('<'));
            assert("&gt;"@ =~= entity_of('>'));
            assert("&quot;"@ =~= entity_of('"'));
            assert("&apos;"@ =~= entity_of('\''));
        }
        if c == '&' {
            out.append("&amp;");
        } else if c == '<' {
            out.append("&lt;");
        } else if c == '>' {
            out.append("&gt;");
        } else if c == '"' {
            out.append("&quot;");
        } else if c == '\'' {
            out.append("&apos;");
        } else {
            let one = s.substring_char(i, i + 1);
            proof {
                assert(one@ =~= seq![c]);
            }
            out.append(one);
        }
        i += 1;
    }
    proof {
        assert(s@.take(n as int) =~= s@);
    }
    out
}

/// Whether `p` occurs in `s` at character index `i`.
fn occurs_at(s: &str, n: usize, i: usize, p: &str) -> (r: bool)
    requires
        n == s@.len(),
        i <= n,
    ensures
        r == starts_with(s@.subrange(i as int, n as int), p@),
{
    let m = p.unicode_len();
    let ghost t = s@.subrange(i as int, n as int);
    if m > n - i {
        return false;
    }
    let mut j: usize = 0;
    while j < m
        invariant
            m == p@.len(),
            m <= n - i,
            n == s@.len(),
            i <= n,
            j <= m,
            t == s@.subrange(i as int, n as int),
            forall|k: int| 0 <= k < j ==> #[trigger] t[k] == p@[k],
        decreases m - j,
    {
        if s.get_char(i + j) != p.get_char(j) {
            proof {
                assert(t.subrange(0, m as int)[j as int] == t[j as int]);
            }
            return false;
        }
        j += 1;
    }
    proof {
        assert(t.subrange(0, m as int) =~= p@);
    }
    true
}

/// The reserved character whose entity occurs in `s` at character index `i`.
fn entity_at(s: &str, n: usize, i: usize) -> (r: Option<char>)
    requires
        n == s@.len(),
        i <= n,
    ensures
        r == entity(s@.subrange(i as int, n as int)),
{
    proof {
        reveal_strlit("&amp;");
        reveal_strlit("&lt;");
        reveal_strlit("&gt;");
        reveal_strlit("&quot;");
        reveal_strlit("&apos;");
        assert("&amp;"@ =~= entity_of('&'));
        assert("&lt;"@ =~= entity_of('<'));
        assert("&gt;"@ =~= entity_of('>'));
        assert("&quot;"@ =~= entity_of('"'));
        assert("&apos;"@ =~= entity_of('\''));
    }
    if occurs_at(s, n, i, "&lt;") {
        Some('<')
    } else if occurs_at(s, n, i, "&gt;") {
        Some('>')
    } else if occurs_at(s, n, i, "&amp;") {
        Some('&')
    } else if occurs_at(s, n, i, "&apos;") {
        Some('\'')
    } else if occurs_at(s, n, i, "&quot;") {
        Some('"')
    } else {
        None
    }
}

/// Reads escaped text back: each of the five entities becomes its character
/// and every other character is kept. Returns `None` where an `&` starts no
/// entity.
pub fn unescape(s: &str) -> (r: Option<String>)
    ensures
        opt_string_view(r) == unescape_spec(s@),
{
    let n = s.unicode_len();
    let mut out = String::new();
    let mut i: usize = 0;
    proof {
        assert(s@.subrange(0, n as int) =~= s@);
        assert(out@ + s@ =~= s@);
    }
    while i < n
        invariant
            n == s@.len(),
            i <= n,
            unescape_spec(s@) == read_on(out@, unescape_spec(s@.subrange(i as int, n as int))),
        decreases n - i,
    {
        let ghost t = s@.subrange(i as int, n as int);
        let c = s.get_char(i);
        proof {
            reveal_strlit("&");
            reveal_strlit("<");
            reveal_strlit(">");
            reveal_strlit("\"");
            reveal_strlit("'");
            assert("&"@ =~= seq!['&']);
            assert("<"@ =~= seq!['<']);
            assert(">"@ =~= seq!['>']);
            assert("\""@ =~= seq!['"']);
            assert("'"@ =~= seq!['\'']);
            assert(t[0] == c);
        }
        if c == '&' {
            match entity_at(s, n, i) {
                None => {
                    return None;
                },
                Some(e) => {
                    let ghost len = entity_of(e).len() as int;
                    proof {
                        assert(t.subrange(len, t.len() as int) =~= s@.subrange(i + len, n as int));
                        assert(out@ + (seq![e] + unescape_spec(t.subrange(len, t.len() as int))->Some_0)
                            =~= out@ + seq![e] + unescape_spec(t.subrange(len, t.len() as int))->Some_0);
                    }
                    if e == '<' {
                        out.append("<");
                        i += 4;
                    } else if e == '>' {
                        out.append(">");
                        i += 4;
                    } else if e == '&' {
                        out.append("&");
                        i += 5;
                    } else if e == '\'' {
                        out.append("'");
                        i += 6;
                    } else {
                        out.append("\"");
                        i += 6;
                    }
                },
            }
        } else {
            let one = s.substring_char(i, i + 1);
            proof {
                assert(one@ =~= seq![c]);
                assert(t.drop_first() =~= s@.subrange(i + 1, n as int));
                assert(out@ + (seq![c] + unescape_spec(t.drop_first())->Some_0) =~= out@ + seq![c]
                    + unescape_spec(t.drop_first())->Some_0);
            }
            out.append(one);
            i += 1;
        }
    }
    proof {
        assert(s@.subrange(n as int, n as int) =~= Seq::<char>::empty());
        assert(out@ + Seq::<char>::empty() =~= out@);
    }
    Some(out)
}

} // verus!
