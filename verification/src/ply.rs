//! Reading the ASCII PLY triangle mesh the renderer draws: the header
//! (vertex and face counts, the per-vertex property count) and the vertex
//! and face lines.  Vertex coordinates are kept as their literals (each
//! checked against the floating-point grammar), converted by the caller.
use vstd::prelude::*;
use crate::text::{
    chars_of, first_index_of, is_float_literal, is_ws, lead_ws, lower, parse_usize_at,
    parse_usize_spec, string_of, trim, trim_bounds, float_literal_at, digit_char,
};

verus! {

// ---------------------------------------------------------------------
// Lines, tokens and decimal numbers.

pub proof fn lemma_first_index_bound(s: Seq<char>, c: char)
    ensures
        first_index_of(s, c) <= s.len(),
        first_index_of(s, c) < s.len() ==> lower(s[first_index_of(s, c) as int]) == c,
        forall|j: int| 0 <= j < first_index_of(s, c) ==> lower(#[trigger] s[j]) != c,
    decreases s.len(),
{
    if s.len() > 0 && lower(s[0]) != c {
        lemma_first_index_bound(s.drop_first(), c);
        assert forall|j: int| 0 <= j < first_index_of(s, c) implies lower(#[trigger] s[j]) != c by {
            if j > 0 {
                assert(s[j] == s.drop_first()[j - 1]);
            }
        }
    }
}

/// A line without a carriage return that ended it.
pub open spec fn strip_cr(l: Seq<char>) -> Seq<char> {
    if l.len() > 0 && l.last() == '\r' {
        l.drop_last()
    } else {
        l
    }
}

/// The lines of a text (`str::lines`): split at `\n`, a `\r` before the
/// `\n` dropped, no empty line after a final `\n`.
pub open spec fn lines_of(s: Seq<char>) -> Seq<Seq<char>>
    decreases s.len(),
{
    if s.len() == 0 {
        Seq::empty()
    } else {
        let k = first_index_of(s, '\n') as int;
        if k >= s.len() {
            seq![s]
        } else {
            seq![strip_cr(s.take(k))] + lines_of(s.skip(k + 1))
        }
    }
}

/// Index of the first whitespace character, or the length.
pub open spec fn first_ws(s: Seq<char>) -> nat
    decreases s.len(),
{
    if s.len() == 0 || is_ws(s[0]) {
        0
    } else {
        1 + first_ws(s.drop_first())
    }
}

proof fn lemma_lead_ws_bound(s: Seq<char>)
    ensures
        lead_ws(s) <= s.len(),
        forall|j: int| 0 <= j < lead_ws(s) ==> is_ws(#[trigger] s[j]),
        lead_ws(s) < s.len() ==> !is_ws(s[lead_ws(s) as int]),
    decreases s.len(),
{
    if s.len() > 0 && is_ws(s[0]) {
        lemma_lead_ws_bound(s.drop_first());
        assert forall|j: int| 0 <= j < lead_ws(s) implies is_ws(#[trigger] s[j]) by {
            if j > 0 {
                assert(s[j] == s.drop_first()[j - 1]);
            }
        }
    }
}

pub proof fn lemma_first_ws_bound(s: Seq<char>)
    ensures
        first_ws(s) <= s.len(),
        forall|j: int| 0 <= j < first_ws(s) ==> !is_ws(#[trigger] s[j]),
        first_ws(s) < s.len() ==> is_ws(s[first_ws(s) as int]),
    decreases s.len(),
{
    if s.len() > 0 && !is_ws(s[0]) {
        lemma_first_ws_bound(s.drop_first());
        assert forall|j: int| 0 <= j < first_ws(s) implies !is_ws(#[trigger] s[j]) by {
            if j > 0 {
                assert(s[j] == s.drop_first()[j - 1]);
            }
        }
    }
}

/// The whitespace-separated tokens of `s` (`str::split_whitespace`).
pub open spec fn tokens(s: Seq<char>) -> Seq<Seq<char>>
    decreases s.len(),
{
    let a = lead_ws(s) as int;
    if a >= s.len() {
        Seq::empty()
    } else {
        let t = s.skip(a);
        let k = first_ws(t) as int;
        if k == 0 {
            Seq::empty()
        } else {
            proof {
                lemma_first_ws_bound(t);
            }
            seq![t.take(k)] + tokens(t.skip(k))
        }
    }
}

/// The decimal digits of `n`.
pub open spec fn decimal(n: nat) -> Seq<char>
    decreases n,
{
    if n < 10 {
        seq![digit_char(n)]
    } else {
        decimal(n / 10).push(digit_char(n % 10))
    }
}

/// `n` in decimal.
pub fn usize_decimal(n: usize) -> (r: String)
    ensures
        r@ == decimal(n as nat),
    decreases n,
{
    let d: u32 = (n % 10) as u32;
    let c = crate::text::digit(d);
    if n < 10 {
        let mut s = String::new();
        crate::text::push_char(&mut s, c);
        assert(s@ =~= seq![digit_char(n as nat)]);
        s
    } else {
        let mut s = usize_decimal(n / 10);
        crate::text::push_char(&mut s, c);
        s
    }
}

/// Lines of `s[pos..]`: bounds `[pos, e)` of the next line without its
/// `\r\n` or `\n`, and where the rest starts.
fn next_line(s: &Vec<char>, pos: usize) -> (r: (usize, usize))
    requires
        pos < s@.len(),
    ensures
        pos <= r.0 <= r.1 <= s@.len(),
        r.0 < r.1 || r.1 == s@.len(),
        r.1 > pos,
        lines_of(s@.skip(pos as int)) == seq![s@.subrange(pos as int, r.0 as int)] + lines_of(
            s@.skip(r.1 as int),
        ),
{
    let ghost t = s@.skip(pos as int);
    let n: usize = s.len();
    let k: usize = crate::text::find_lower(s, pos, n, '\n');
    proof {
        assert(s@.subrange(pos as int, n as int) =~= t);
        lemma_first_index_bound(t, '\n');
    }
    if k == n {
        assert(t =~= s@.subrange(pos as int, n as int));
        assert(s@.skip(n as int) =~= Seq::<char>::empty());
        assert(lines_of(s@.skip(n as int)) =~= Seq::<Seq<char>>::empty());
        assert(seq![s@.subrange(pos as int, n as int)] + Seq::<Seq<char>>::empty() =~= seq![t]);
        (n, n)
    } else {
        proof {
            assert(lower(t[k - pos]) == '\n');
            assert(t[k - pos] == s@[k as int]);
        }
        assert(t.skip(k - pos + 1) =~= s@.skip(k + 1));
        assert(t.take(k - pos) =~= s@.subrange(pos as int, k as int));
        let e = if k > pos && s[k - 1] == '\r' {
            k - 1
        } else {
            k
        };
        assert(strip_cr(t.take(k - pos)) =~= s@.subrange(pos as int, e as int));
        (e, k + 1)
    }
}

/// The tokens of `s[lo..hi]`, as bounds.
fn token_bounds(s: &Vec<char>, lo: usize, hi: usize) -> (r: Vec<(usize, usize)>)
    requires
        lo <= hi <= s@.len(),
    ensures
        forall|i: int| 0 <= i < r@.len() ==> lo <= (#[trigger] r@[i]).0 <= r@[i].1 <= hi,
        tokens(s@.subrange(lo as int, hi as int)) == r@.map_values(
            |b: (usize, usize)| s@.subrange(b.0 as int, b.1 as int),
        ),
{
    let mut out: Vec<(usize, usize)> = Vec::new();
    let mut pos: usize = lo;
    while pos < hi
        invariant
            lo <= pos <= hi <= s@.len(),
            forall|i: int| 0 <= i < out@.len() ==> lo <= (#[trigger] out@[i]).0 <= out@[i].1 <= hi,
            tokens(s@.subrange(lo as int, hi as int)) == out@.map_values(
                |b: (usize, usize)| s@.subrange(b.0 as int, b.1 as int),
            ) + tokens(s@.subrange(pos as int, hi as int)),
        decreases hi - pos,
    {
        let ghost u = s@.subrange(pos as int, hi as int);
        let mut a: usize = pos;
        while a < hi && crate::text::is_whitespace(s[a])
            invariant
                pos <= a <= hi <= s@.len(),
                forall|j: int| pos <= j < a ==> is_ws(#[trigger] s@[j]),
            decreases hi - a,
        {
            a = a + 1;
        }
        proof {
            lemma_lead_ws_bound(u);
            lemma_lead_ws_exact(u, a - pos, s@, pos as int);
        }
        if a == hi {
            assert(tokens(u) =~= Seq::<Seq<char>>::empty());
            let ghost mv = out@.map_values(|b: (usize, usize)| s@.subrange(b.0 as int, b.1 as int));
            assert(mv + Seq::<Seq<char>>::empty() =~= mv);
            assert(s@.subrange(hi as int, hi as int) =~= Seq::<char>::empty());
            pos = hi;
        } else {
            let mut b: usize = a;
            while b < hi && !crate::text::is_whitespace(s[b])
                invariant
                    a <= b <= hi <= s@.len(),
                    forall|j: int| a <= j < b ==> !is_ws(#[trigger] s@[j]),
                decreases hi - b,
            {
                b = b + 1;
            }
            let ghost t = u.skip(a - pos);
            proof {
                assert(t =~= s@.subrange(a as int, hi as int));
                lemma_first_ws_exact(t, b - a, s@, a as int);
                assert(!is_ws(s@[a as int]));
                assert(t[0] == s@[a as int]);
                assert(t.take(b - a) =~= s@.subrange(a as int, b as int));
                assert(t.skip(b - a) =~= s@.subrange(b as int, hi as int));
            }
            let ghost before = out@;
            out.push((a, b));
            proof {
                let f = |bb: (usize, usize)| s@.subrange(bb.0 as int, bb.1 as int);
                assert(out@.map_values(f) =~= before.map_values(f).push(s@.subrange(a as int, b as int)));
                assert(tokens(u) == seq![s@.subrange(a as int, b as int)] + tokens(s@.subrange(b as int, hi as int)));
                assert(before.map_values(f) + tokens(u) =~= out@.map_values(f) + tokens(s@.subrange(b as int, hi as int)));
            }
            pos = b;
        }
    }
    proof {
        let mv = out@.map_values(|b: (usize, usize)| s@.subrange(b.0 as int, b.1 as int));
        assert(s@.subrange(pos as int, hi as int) =~= Seq::<char>::empty());
        assert(tokens(Seq::<char>::empty()) =~= Seq::<Seq<char>>::empty());
        assert(mv + Seq::<Seq<char>>::empty() =~= mv);
    }
    out
}

proof fn lemma_lead_ws_exact(u: Seq<char>, i: int, s: Seq<char>, pos: int)
    requires
        0 <= i <= u.len(),
        0 <= pos,
        pos + u.len() <= s.len(),
        forall|j: int| 0 <= j < u.len() ==> u[j] == s[pos + j],
        forall|j: int| pos <= j < pos + i ==> is_ws(#[trigger] s[j]),
        i == u.len() || !is_ws(s[pos + i]),
    ensures
        lead_ws(u) == i,
{
    lemma_lead_ws_bound(u);
    if lead_ws(u) < i {
        assert(is_ws(s[pos + lead_ws(u)]));
        assert(u[lead_ws(u) as int] == s[pos + lead_ws(u)]);
    }
    if lead_ws(u) > i {
        assert(is_ws(u[i]));
        assert(u[i] == s[pos + i]);
    }
}

proof fn lemma_first_ws_exact(t: Seq<char>, i: int, s: Seq<char>, a: int)
    requires
        0 <= i <= t.len(),
        0 <= a,
        a + t.len() <= s.len(),
        forall|j: int| 0 <= j < t.len() ==> t[j] == s[a + j],
        forall|j: int| a <= j < a + i ==> !is_ws(#[trigger] s[j]),
        i == t.len() || is_ws(s[a + i]),
    ensures
        first_ws(t) == i,
{
    lemma_first_ws_bound(t);
    if first_ws(t) < i {
        assert(!is_ws(s[a + first_ws(t)]));
        assert(t[first_ws(t) as int] == s[a + first_ws(t)]);
    }
    if first_ws(t) > i {
        assert(!is_ws(t[i]));
        assert(t[i] == s[a + i]);
    }
}

// ---------------------------------------------------------------------
// The mesh file.

/// A vertex line's fields: the x, y and z literals, the (u, v) texture
/// literals when the header declares them, and the part number.
pub type VertexView = (Seq<char>, Seq<char>, Seq<char>, Option<(Seq<char>, Seq<char>)>, u8);

/// A triangle: three vertex indices.
pub type Face = (u32, u32, u32);

/// The reader's state: in the header, vertex count, face count,
/// properties per vertex, the vertices and the faces read so far.
pub type PlyState = (bool, usize, usize, usize, Seq<VertexView>, Seq<Face>);

pub open spec fn parse_u8_spec(s: Seq<char>) -> Option<u8> {
    match parse_usize_spec(s) {
        Some(v) => if v <= 255 {
            Some(v as u8)
        } else {
            None
        },
        None => None,
    }
}

pub open spec fn parse_u32_spec(s: Seq<char>) -> Option<u32> {
    match parse_usize_spec(s) {
        Some(v) => if v <= u32::MAX {
            Some(v as u32)
        } else {
            None
        },
        None => None,
    }
}

pub open spec fn starts_with(s: Seq<char>, p: Seq<char>) -> bool {
    s.len() >= p.len() && s.take(p.len() as int) == p
}

/// A vertex line: x, y, z, then u and v when the header declares five or
/// more properties, then the part when it declares six or more.
pub open spec fn vertex_spec(t: Seq<Seq<char>>, nprops: usize) -> Result<VertexView, Seq<char>> {
    if t.len() < 1 {
        Err("bad vertex"@)
    } else if !is_float_literal(t[0]) {
        Err("bad x"@)
    } else if t.len() < 2 {
        Err("bad vertex"@)
    } else if !is_float_literal(t[1]) {
        Err("bad y"@)
    } else if t.len() < 3 {
        Err("bad vertex"@)
    } else if !is_float_literal(t[2]) {
        Err("bad z"@)
    } else if nprops >= 5 && (t.len() < 4 || !is_float_literal(t[3])) {
        Err("bad u"@)
    } else if nprops >= 5 && (t.len() < 5 || !is_float_literal(t[4])) {
        Err("bad v"@)
    } else {
        let p = if nprops >= 5 {
            5int
        } else {
            3int
        };
        let uv = if nprops >= 5 {
            Some((t[3], t[4]))
        } else {
            None
        };
        if nprops >= 6 {
            if t.len() <= p {
                Err("bad part"@)
            } else {
                match parse_u8_spec(t[p]) {
                    Some(part) => Ok((t[0], t[1], t[2], uv, part)),
                    None => Err("bad part"@),
                }
            }
        } else {
            Ok((t[0], t[1], t[2], uv, 0u8))
        }
    }
}

/// The characters of `s` that are not whitespace, in order.
pub open spec fn non_ws(s: Seq<char>) -> Seq<char>
    decreases s.len(),
{
    if s.len() == 0 {
        s
    } else if is_ws(s[0]) {
        non_ws(s.drop_first())
    } else {
        seq![s[0]] + non_ws(s.drop_first())
    }
}

/// The tokens of `ts`, one after the other.
pub open spec fn concat_all(ts: Seq<Seq<char>>) -> Seq<char>
    decreases ts.len(),
{
    if ts.len() == 0 {
        Seq::empty()
    } else {
        ts[0] + concat_all(ts.drop_first())
    }
}

proof fn lemma_non_ws_concat(x: Seq<char>, y: Seq<char>)
    ensures
        non_ws(x + y) == non_ws(x) + non_ws(y),
    decreases x.len(),
{
    if x.len() == 0 {
        assert(x + y =~= y);
        assert(non_ws(x) + non_ws(y) =~= non_ws(y));
    } else {
        assert((x + y).drop_first() =~= x.drop_first() + y);
        lemma_non_ws_concat(x.drop_first(), y);
        if !is_ws(x[0]) {
            assert(seq![x[0]] + (non_ws(x.drop_first()) + non_ws(y)) =~= seq![x[0]] + non_ws(
                x.drop_first(),
            ) + non_ws(y));
        }
    }
}

proof fn lemma_non_ws_of_ws(x: Seq<char>)
    requires
        forall|i: int| 0 <= i < x.len() ==> is_ws(#[trigger] x[i]),
    ensures
        non_ws(x) == Seq::<char>::empty(),
    decreases x.len(),
{
    if x.len() > 0 {
        assert forall|i: int| 0 <= i < x.drop_first().len() implies is_ws(
            #[trigger] x.drop_first()[i],
        ) by {
            assert(x.drop_first()[i] == x[i + 1]);
        }
        lemma_non_ws_of_ws(x.drop_first());
    }
}

proof fn lemma_non_ws_of_word(x: Seq<char>)
    requires
        forall|i: int| 0 <= i < x.len() ==> !is_ws(#[trigger] x[i]),
    ensures
        non_ws(x) == x,
    decreases x.len(),
{
    if x.len() > 0 {
        assert forall|i: int| 0 <= i < x.drop_first().len() implies !is_ws(
            #[trigger] x.drop_first()[i],
        ) by {
            assert(x.drop_first()[i] == x[i + 1]);
        }
        lemma_non_ws_of_word(x.drop_first());
        assert(seq![x[0]] + x.drop_first() =~= x);
    }
}

/// The tokens of a line are its whitespace-separated words: each is
/// non-empty and holds no whitespace, and together, in order, they are
/// exactly the line's characters other than whitespace.
pub proof fn tokens_are_the_words(s: Seq<char>)
    ensures
        concat_all(tokens(s)) == non_ws(s),
        forall|i: int|
            0 <= i < tokens(s).len() ==> (#[trigger] tokens(s)[i]).len() > 0 && forall|j: int|
                0 <= j < tokens(s)[i].len() ==> !is_ws(#[trigger] tokens(s)[i][j]),
    decreases s.len(),
{
    let a = lead_ws(s) as int;
    lemma_lead_ws_bound(s);
    assert(s =~= s.take(a) + s.skip(a));
    lemma_non_ws_concat(s.take(a), s.skip(a));
    lemma_non_ws_of_ws(s.take(a));
    assert(Seq::<char>::empty() + non_ws(s.skip(a)) =~= non_ws(s.skip(a)));
    if a >= s.len() {
        assert(s.skip(a) =~= Seq::<char>::empty());
    } else {
        let t = s.skip(a);
        let k = first_ws(t) as int;
        lemma_first_ws_bound(t);
        assert(t[0] == s[a]);
        if k == 0 {
            assert(false);
        } else {
            let w = t.take(k);
            let rest = t.skip(k);
            assert(t =~= w + rest);
            lemma_non_ws_concat(w, rest);
            lemma_non_ws_of_word(w);
            tokens_are_the_words(rest);
            let ts = tokens(s);
            assert(ts == seq![w] + tokens(rest));
            assert(ts.drop_first() =~= tokens(rest));
            assert(ts[0] == w);
            assert forall|i: int| 0 <= i < ts.len() implies (#[trigger] ts[i]).len() > 0
                && forall|j: int| 0 <= j < ts[i].len() ==> !is_ws(#[trigger] ts[i][j]) by {
                if i > 0 {
                    assert(ts[i] == tokens(rest)[i - 1]);
                }
            }
        }
    }
}

/// A vertex line's fields are its tokens, as read: when the reader accepts
/// the tokens `t` of a vertex line, x, y and z are exactly the first three
/// tokens (each a floating-point literal), u and v the next two when the
/// header declares them, and the part the value of the sixth token when
/// the header declares it (else 0).
pub proof fn vertex_fields_are_its_tokens(t: Seq<Seq<char>>, nprops: usize)
    ensures
        vertex_spec(t, nprops) matches Ok(v) ==> {
            &&& t.len() >= 3
            &&& v.0 == t[0] && v.1 == t[1] && v.2 == t[2]
            &&& is_float_literal(t[0]) && is_float_literal(t[1]) && is_float_literal(t[2])
            &&& nprops >= 5 ==> t.len() >= 5 && v.3 == Some((t[3], t[4]))
            &&& nprops < 5 ==> v.3 is None
            &&& nprops >= 6 ==> t.len() >= 6 && parse_u8_spec(t[5]) == Some(v.4)
            &&& nprops < 6 ==> v.4 == 0
        },
{
}

/// A face line reads as the three indices it lists: when the reader
/// accepts the tokens `t` of a face line, the line starts with the count 3
/// and the face is the values of the next three tokens.
pub proof fn face_is_its_indices(t: Seq<Seq<char>>)
    ensures
        face_spec(t) matches Ok(f) ==> {
            &&& t.len() >= 4
            &&& parse_usize_spec(t[0]) == Some(3usize)
            &&& parse_u32_spec(t[1]) == Some(f.0)
            &&& parse_u32_spec(t[2]) == Some(f.1)
            &&& parse_u32_spec(t[3]) == Some(f.2)
        },
{
}

pub open spec fn face_count_error(k: usize) -> Seq<char> {
    "only triangle faces are supported (got "@ + decimal(k as nat) + ")"@
}

/// A face line: the vertex count (which must be 3) and three indices.
pub open spec fn face_spec(t: Seq<Seq<char>>) -> Result<Face, Seq<char>> {
    if t.len() < 1 {
        Err("bad face"@)
    } else if parse_usize_spec(t[0]) is None {
        Err("bad count"@)
    } else if t.len() < 2 {
        Err("bad face"@)
    } else if parse_u32_spec(t[1]) is None {
        Err("bad a"@)
    } else if t.len() < 3 {
        Err("bad face"@)
    } else if parse_u32_spec(t[2]) is None {
        Err("bad b"@)
    } else if t.len() < 4 {
        Err("bad face"@)
    } else if parse_u32_spec(t[3]) is None {
        Err("bad c"@)
    } else if parse_usize_spec(t[0]) != Some(3usize) {
        Err(face_count_error(parse_usize_spec(t[0])->0))
    } else {
        Ok((parse_u32_spec(t[1])->0, parse_u32_spec(t[2])->0, parse_u32_spec(t[3])->0))
    }
}

/// One line of the file: `Ok((stop, state))`, or the error.
pub open spec fn ply_line(st: PlyState, raw: Seq<char>) -> Result<(bool, PlyState), Seq<char>> {
    let line = trim(raw);
    if st.0 {
        if line == "end_header"@ {
            Ok((false, (false, st.1, st.2, st.3, st.4, st.5)))
        } else if starts_with(line, "element vertex "@) {
            match parse_usize_spec(line.skip(15)) {
                Some(n) => Ok((false, (true, n, st.2, st.3, st.4, st.5))),
                None => Err("bad vertex count"@),
            }
        } else if starts_with(line, "element face "@) {
            match parse_usize_spec(line.skip(13)) {
                Some(n) => Ok((false, (true, st.1, n, st.3, st.4, st.5))),
                None => Err("bad face count"@),
            }
        } else if starts_with(line, "property "@) {
            Ok((false, (true, st.1, st.2, (st.3 + 1) as usize, st.4, st.5)))
        } else {
            Ok((false, st))
        }
    } else if line.len() == 0 {
        Ok((false, st))
    } else if st.4.len() < st.1 {
        match vertex_spec(tokens(line), st.3) {
            Ok(v) => Ok((false, (st.0, st.1, st.2, st.3, st.4.push(v), st.5))),
            Err(e) => Err(e),
        }
    } else if st.5.len() < st.2 {
        match face_spec(tokens(line)) {
            Ok(f) => Ok((false, (st.0, st.1, st.2, st.3, st.4, st.5.push(f)))),
            Err(e) => Err(e),
        }
    } else {
        Ok((true, st))
    }
}

/// Read lines until the end, a stop or an error.
pub open spec fn ply_run(st: PlyState, lines: Seq<Seq<char>>) -> Result<PlyState, Seq<char>>
    decreases lines.len(),
{
    if lines.len() == 0 {
        Ok(st)
    } else {
        match ply_line(st, lines[0]) {
            Err(e) => Err(e),
            Ok((stop, st2)) => if stop {
                Ok(st2)
            } else {
                ply_run(st2, lines.drop_first())
            },
        }
    }
}

pub open spec fn ply_start() -> PlyState {
    (true, 0, 0, 3, Seq::empty(), Seq::empty())
}

pub open spec fn short_mesh(st: PlyState) -> Seq<char> {
    "short mesh: "@ + decimal(st.4.len()) + "/"@ + decimal(st.1 as nat) + " vertices, "@
        + decimal(st.5.len()) + "/"@ + decimal(st.2 as nat) + " faces"@
}

/// The whole file: the header, then the declared vertices and faces; a
/// file that ends before it declared as many is short.
pub open spec fn ply_spec(text: Seq<char>) -> Result<PlyState, Seq<char>> {
    match ply_run(ply_start(), lines_of(text)) {
        Err(e) => Err(e),
        Ok(st) => if st.4.len() != st.1 || st.5.len() != st.2 {
            Err(short_mesh(st))
        } else {
            Ok(st)
        },
    }
}

/// A vertex as read: coordinate literals, texture literals and part.
#[derive(Debug)]
pub struct PlyVertex {
    pub x: String,
    pub y: String,
    pub z: String,
    pub uv: Option<(String, String)>,
    pub part: u8,
}

impl PlyVertex {
    pub open spec fn view_of(&self) -> VertexView {
        (
            self.x@,
            self.y@,
            self.z@,
            match self.uv {
                Some(uv) => Some((uv.0@, uv.1@)),
                None => None,
            },
            self.part,
        )
    }
}

pub open spec fn vertex_views(vs: Seq<PlyVertex>) -> Seq<VertexView> {
    vs.map_values(|v: PlyVertex| v.view_of())
}

/// A mesh as read.
#[derive(Debug)]
pub struct PlyMesh {
    pub vertices: Vec<PlyVertex>,
    pub faces: Vec<Face>,
}

pub open spec fn token_views(s: Seq<char>, t: Seq<(usize, usize)>) -> Seq<Seq<char>> {
    t.map_values(|b: (usize, usize)| s.subrange(b.0 as int, b.1 as int))
}

/// Whether `s[lo..hi]` equals `word`.
fn matches_at(s: &Vec<char>, lo: usize, hi: usize, word: &str) -> (r: bool)
    requires
        lo <= hi <= s@.len(),
    ensures
        r == (s@.subrange(lo as int, hi as int) == word@),
{
    let w = chars_of(word);
    if hi - lo != w.len() {
        return false;
    }
    let mut i: usize = 0;
    while i < w.len()
        invariant
            w@ == word@,
            hi - lo == w@.len(),
            lo <= hi <= s@.len(),
            i <= w@.len(),
            forall|j: int| 0 <= j < i ==> s@[lo + j] == w@[j],
        decreases w@.len() - i,
    {
        if s[lo + i] != w[i] {
            assert(s@.subrange(lo as int, hi as int)[i as int] != word@[i as int]);
            return false;
        }
        i = i + 1;
    }
    assert(s@.subrange(lo as int, hi as int) =~= word@);
    true
}

/// Whether `s[lo..hi]` starts with `prefix`.
fn starts_at(s: &Vec<char>, lo: usize, hi: usize, prefix: &str) -> (r: bool)
    requires
        lo <= hi <= s@.len(),
    ensures
        r == starts_with(s@.subrange(lo as int, hi as int), prefix@),
        r ==> hi - lo >= prefix@.len(),
{
    let n: usize = prefix.unicode_len();
    if hi - lo < n {
        return false;
    }
    let r = matches_at(s, lo, lo + n, prefix);
    assert(s@.subrange(lo as int, hi as int).take(n as int) =~= s@.subrange(lo as int, lo + n));
    r
}

fn parse_u8_at(s: &Vec<char>, lo: usize, hi: usize) -> (r: Option<u8>)
    requires
        lo <= hi <= s@.len(),
    ensures
        r == parse_u8_spec(s@.subrange(lo as int, hi as int)),
{
    match parse_usize_at(s, lo, hi) {
        Some(v) => if v <= 255 {
            Some(v as u8)
        } else {
            None
        },
        None => None,
    }
}

fn parse_u32_at(s: &Vec<char>, lo: usize, hi: usize) -> (r: Option<u32>)
    requires
        lo <= hi <= s@.len(),
    ensures
        r == parse_u32_spec(s@.subrange(lo as int, hi as int)),
{
    match parse_usize_at(s, lo, hi) {
        Some(v) => if v <= 0xffff_ffffusize {
            Some(v as u32)
        } else {
            None
        },
        None => None,
    }
}

fn err(msg: &str) -> (r: String)
    ensures
        r@ == msg@,
{
    String::from_str(msg)
}

/// Token `i` is present and a floating-point literal.
fn float_token(s: &Vec<char>, t: &Vec<(usize, usize)>, i: usize) -> (r: bool)
    requires
        forall|j: int| 0 <= j < t@.len() ==> (#[trigger] t@[j]).0 <= t@[j].1 <= s@.len(),
    ensures
        r == (i < t@.len() && is_float_literal(token_views(s@, t@)[i as int])),
{
    i < t.len() && float_literal_at(s, t[i].0, t[i].1)
}

fn read_vertex(s: &Vec<char>, t: &Vec<(usize, usize)>, nprops: usize) -> (r: Result<PlyVertex, String>)
    requires
        forall|j: int| 0 <= j < t@.len() ==> (#[trigger] t@[j]).0 <= t@[j].1 <= s@.len(),
    ensures
        match vertex_spec(token_views(s@, t@), nprops) {
            Ok(v) => r matches Ok(pv) && pv.view_of() == v,
            Err(e) => r matches Err(m) && m@ == e,
        },
{
    let ghost tv = token_views(s@, t@);
    if t.len() < 1 {
        return Err(err("bad vertex"));
    }
    if !float_token(s, t, 0) {
        return Err(err("bad x"));
    }
    if t.len() < 2 {
        return Err(err("bad vertex"));
    }
    if !float_token(s, t, 1) {
        return Err(err("bad y"));
    }
    if t.len() < 3 {
        return Err(err("bad vertex"));
    }
    if !float_token(s, t, 2) {
        return Err(err("bad z"));
    }
    if nprops >= 5 && !float_token(s, t, 3) {
        return Err(err("bad u"));
    }
    if nprops >= 5 && !float_token(s, t, 4) {
        return Err(err("bad v"));
    }
    let x = string_of(s, t[0].0, t[0].1);
    let y = string_of(s, t[1].0, t[1].1);
    let z = string_of(s, t[2].0, t[2].1);
    let p: usize = if nprops >= 5 {
        5
    } else {
        3
    };
    let uv = if nprops >= 5 {
        Some((string_of(s, t[3].0, t[3].1), string_of(s, t[4].0, t[4].1)))
    } else {
        None
    };
    let part = if nprops >= 6 {
        if t.len() <= p {
            return Err(err("bad part"));
        }
        match parse_u8_at(s, t[p].0, t[p].1) {
            Some(part) => part,
            None => {
                return Err(err("bad part"));
            },
        }
    } else {
        0u8
    };
    Ok(PlyVertex { x, y, z, uv, part })
}

fn read_face(s: &Vec<char>, t: &Vec<(usize, usize)>) -> (r: Result<Face, String>)
    requires
        forall|j: int| 0 <= j < t@.len() ==> (#[trigger] t@[j]).0 <= t@[j].1 <= s@.len(),
    ensures
        match face_spec(token_views(s@, t@)) {
            Ok(f) => r == Ok::<Face, String>(f),
            Err(e) => r matches Err(m) && m@ == e,
        },
{
    let ghost tv = token_views(s@, t@);
    if t.len() < 1 {
        return Err(err("bad face"));
    }
    let k = match parse_usize_at(s, t[0].0, t[0].1) {
        Some(k) => k,
        None => {
            return Err(err("bad count"));
        },
    };
    if t.len() < 2 {
        return Err(err("bad face"));
    }
    let a = match parse_u32_at(s, t[1].0, t[1].1) {
        Some(v) => v,
        None => {
            return Err(err("bad a"));
        },
    };
    if t.len() < 3 {
        return Err(err("bad face"));
    }
    let b = match parse_u32_at(s, t[2].0, t[2].1) {
        Some(v) => v,
        None => {
            return Err(err("bad b"));
        },
    };
    if t.len() < 4 {
        return Err(err("bad face"));
    }
    let c = match parse_u32_at(s, t[3].0, t[3].1) {
        Some(v) => v,
        None => {
            return Err(err("bad c"));
        },
    };
    if k != 3 {
        let m = String::from_str("only triangle faces are supported (got ").concat(
            usize_decimal(k).as_str(),
        ).concat(")");
        return Err(m);
    }
    Ok((a, b, c))
}

/// Read an ASCII PLY mesh (see [`ply_spec`]).
pub fn load_ply(text: &str) -> (r: Result<PlyMesh, String>)
    ensures
        match ply_spec(text@) {
            Ok(st) => r matches Ok(m) && vertex_views(m.vertices@) == st.4 && m.faces@ == st.5,
            Err(e) => r matches Err(m) && m@ == e,
        },
{
    let cs = chars_of(text);
    let n: usize = cs.len();
    let mut in_header = true;
    let mut nv: usize = 0;
    let mut nf: usize = 0;
    let mut nprops: usize = 3;
    let mut verts: Vec<PlyVertex> = Vec::new();
    let mut faces: Vec<Face> = Vec::new();
    let mut pos: usize = 0;
    assert(cs@.skip(0) =~= cs@);
    let ghost goal = ply_run(ply_start(), lines_of(cs@));
    assert(vertex_views(verts@) =~= Seq::<VertexView>::empty());
    assert(faces@ =~= Seq::<Face>::empty());
    loop
        invariant
            n == cs@.len(),
            cs@ == text@,
            pos <= n,
            nprops <= pos + 3,
            goal == ply_run(ply_start(), lines_of(cs@)),
            goal == ply_run(
                (in_header, nv, nf, nprops, vertex_views(verts@), faces@),
                lines_of(cs@.skip(pos as int)),
            ),
        ensures
            goal == Ok::<PlyState, Seq<char>>(
                (in_header, nv, nf, nprops, vertex_views(verts@), faces@),
            ),
        decreases n - pos,
    {
        let ghost st = (in_header, nv, nf, nprops, vertex_views(verts@), faces@);
        if pos == n {
            assert(cs@.skip(n as int) =~= Seq::<char>::empty());
            assert(lines_of(cs@.skip(n as int)) =~= Seq::<Seq<char>>::empty());
            break;
        }
        let (e, next) = next_line(&cs, pos);
        let ghost raw = cs@.subrange(pos as int, e as int);
        let ghost rest = lines_of(cs@.skip(next as int));
        proof {
            let ls = seq![raw] + rest;
            assert(ls[0] == raw);
            assert(ls.drop_first() =~= rest);
        }
        let (a, b) = trim_bounds(&cs, pos, e);
        let ghost line = cs@.subrange(a as int, b as int);
        assert(line == trim(raw));
        if in_header {
            if matches_at(&cs, a, b, "end_header") {
                in_header = false;
            } else if starts_at(&cs, a, b, "element vertex ") {
                proof {
                    reveal_strlit("element vertex ");
                }
                assert(line.skip(15) =~= cs@.subrange(a + 15, b as int));
                match parse_usize_at(&cs, a + 15, b) {
                    Some(v) => {
                        nv = v;
                    },
                    None => {
                        return Err(err("bad vertex count"));
                    },
                }
            } else if starts_at(&cs, a, b, "element face ") {
                proof {
                    reveal_strlit("element face ");
                }
                assert(line.skip(13) =~= cs@.subrange(a + 13, b as int));
                match parse_usize_at(&cs, a + 13, b) {
                    Some(v) => {
                        nf = v;
                    },
                    None => {
                        return Err(err("bad face count"));
                    },
                }
            } else if starts_at(&cs, a, b, "property ") {
                proof {
                    reveal_strlit("property ");
                }
                nprops = nprops + 1;
            }
        } else if a == b {
        } else {
            let t = token_bounds(&cs, a, b);
            assert(tokens(line) == token_views(cs@, t@));
            if verts.len() < nv {
                match read_vertex(&cs, &t, nprops) {
                    Ok(v) => {
                        let ghost vv = vertex_views(verts@);
                        verts.push(v);
                        assert(vertex_views(verts@) =~= vv.push(v.view_of()));
                    },
                    Err(m) => {
                        return Err(m);
                    },
                }
            } else if faces.len() < nf {
                match read_face(&cs, &t) {
                    Ok(f) => {
                        faces.push(f);
                    },
                    Err(m) => {
                        return Err(m);
                    },
                }
            } else {
                break;
            }
        }
        pos = next;
    }
    if verts.len() != nv || faces.len() != nf {
        let m = String::from_str("short mesh: ").concat(usize_decimal(verts.len()).as_str()).concat(
            "/",
        ).concat(usize_decimal(nv).as_str()).concat(" vertices, ").concat(
            usize_decimal(faces.len()).as_str(),
        ).concat("/").concat(usize_decimal(nf).as_str()).concat(" faces");
        return Err(m);
    }
    Ok(PlyMesh { vertices: verts, faces })
}

} // verus!
