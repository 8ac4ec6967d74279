//! The mesh document reads back: the PLY text written for a mesh (the
//! header of [`crate::mesh::ply_header`], one line per vertex, then
//! [`crate::mesh::face_lines`]) is read by [`crate::ply::load_ply`] as
//! exactly those vertices and triangles.
use vstd::prelude::*;
use crate::text::{
    all_digits, digit_char, digits_value, first_index_of, is_digit, is_ws, lead_ws, lower,
    parse_usize_spec, trail_ws, trim, unsigned_digits,
};
use crate::ply::{
    decimal, face_spec, first_ws, lines_of, parse_u32_spec, ply_line, ply_run, ply_spec, ply_start,
    starts_with, strip_cr, tokens, vertex_spec, Face, PlyState, VertexView,
};
use crate::mesh::{face_line, face_lines_spec, ply_header_spec, Tri};

verus! {

/// Whether no character of `s` is a line break.
pub open spec fn no_newline(s: Seq<char>) -> bool {
    forall|i: int| 0 <= i < s.len() ==> #[trigger] s[i] != '\n'
}

proof fn lemma_lower_newline(c: char)
    ensures
        (lower(c) == '\n') == (c == '\n'),
{
}

proof fn lemma_first_index_concat(x: Seq<char>, y: Seq<char>)
    requires
        no_newline(x),
    ensures
        first_index_of(x + y, '\n') == x.len() + first_index_of(y, '\n'),
    decreases x.len(),
{
    if x.len() > 0 {
        lemma_lower_newline(x[0]);
        assert((x + y)[0] == x[0]);
        assert((x + y).drop_first() =~= x.drop_first() + y);
        lemma_first_index_concat(x.drop_first(), y);
    } else {
        assert(x + y =~= y);
    }
}

/// The lines of one newline-terminated line.
proof fn lemma_line_cons(x: Seq<char>, rest: Seq<char>)
    requires
        no_newline(x),
    ensures
        lines_of(x + seq!['\n'] + rest) == seq![crate::ply::strip_cr(x)] + lines_of(rest),
{
    let s = x + seq!['\n'] + rest;
    assert(s =~= x + (seq!['\n'] + rest));
    lemma_first_index_concat(x, seq!['\n'] + rest);
    lemma_lower_newline('\n');
    assert(first_index_of(seq!['\n'] + rest, '\n') == 0);
    assert(s.take(x.len() as int) =~= x);
    assert(s.skip(x.len() as int + 1) =~= rest);
}

/// Lines split at a line break that ends the first part.
proof fn lemma_lines_append(a: Seq<char>, b: Seq<char>)
    requires
        a.len() == 0 || a.last() == '\n',
    ensures
        lines_of(a + b) == lines_of(a) + lines_of(b),
    decreases a.len(),
{
    if a.len() == 0 {
        assert(a + b =~= b);
        assert(lines_of(a) =~= Seq::<Seq<char>>::empty());
        assert(lines_of(a) + lines_of(b) =~= lines_of(b));
    } else {
        let k = first_index_of(a, '\n') as int;
        crate::ply::lemma_first_index_bound(a, '\n');
        lemma_lower_newline(a.last());
        assert(k < a.len()) by {
            if k >= a.len() {
                assert(lower(a[a.len() - 1]) != '\n');
            }
        }
        let x = a.take(k);
        let ra = a.skip(k + 1);
        assert(no_newline(x)) by {
            assert forall|i: int| 0 <= i < x.len() implies #[trigger] x[i] != '\n' by {
                assert(lower(a[i]) != '\n');
                lemma_lower_newline(a[i]);
            }
        }
        lemma_lower_newline(a[k]);
        assert(a =~= x + seq!['\n'] + ra);
        assert(a + b =~= x + seq!['\n'] + (ra + b));
        lemma_line_cons(x, ra);
        lemma_line_cons(x, ra + b);
        if ra.len() > 0 {
            assert(ra.last() == a.last());
        }
        lemma_lines_append(ra, b);
        assert(lines_of(a + b) =~= lines_of(a) + lines_of(b));
    }
}

/// Decimal text is digits, and reads back as its value.
proof fn lemma_decimal(n: nat)
    ensures
        decimal(n).len() > 0,
        all_digits(decimal(n)),
        digits_value(decimal(n)) == n,
    decreases n,
{
    let d = n % 10;
    assert(digit_char(d) as u32 == 48 + d);
    assert(('0' as u32) == 48);
    assert(((digit_char(d) as u32) - ('0' as u32)) as nat == d);
    if n < 10 {
        let s = decimal(n);
        assert(s.drop_last() =~= Seq::<char>::empty());
        assert(digits_value(s.drop_last()) == 0);
        assert(s.last() == digit_char(d));
        assert(digits_value(s) == d);
    } else {
        lemma_decimal(n / 10);
        let p = decimal(n / 10);
        let s = decimal(n);
        assert(s.drop_last() =~= p);
        assert(s.last() == digit_char(d));
        assert(n == (n / 10) * 10 + d);
        assert(digits_value(s) == digits_value(p) * 10 + d);
        assert forall|i: int| 0 <= i < s.len() implies is_digit(#[trigger] s[i]) by {
            if i < p.len() {
                assert(s[i] == p[i]);
            }
        }
    }
}

/// Decimal text parses as its value.
proof fn lemma_parse_decimal(n: nat)
    requires
        n <= usize::MAX,
    ensures
        parse_usize_spec(decimal(n)) == Some(n as usize),
{
    lemma_decimal(n);
    assert(is_digit(decimal(n)[0]));
    assert(unsigned_digits(decimal(n)) == decimal(n));
}

/// Whether no character of `s` is whitespace.
pub open spec fn no_ws(s: Seq<char>) -> bool {
    forall|i: int| 0 <= i < s.len() ==> !is_ws(#[trigger] s[i])
}

proof fn lemma_digits_no_ws(s: Seq<char>)
    requires
        all_digits(s),
    ensures
        no_ws(s),
        no_newline(s),
{
    assert forall|i: int| 0 <= i < s.len() implies !is_ws(#[trigger] s[i]) by {
        assert(is_digit(s[i]));
    }
    assert forall|i: int| 0 <= i < s.len() implies #[trigger] s[i] != '\n' by {
        assert(is_digit(s[i]));
    }
}

proof fn lemma_first_ws_concat(x: Seq<char>, y: Seq<char>)
    requires
        no_ws(x),
    ensures
        first_ws(x + y) == x.len() + first_ws(y),
    decreases x.len(),
{
    if x.len() > 0 {
        assert((x + y)[0] == x[0]);
        assert((x + y).drop_first() =~= x.drop_first() + y);
        lemma_first_ws_concat(x.drop_first(), y);
    } else {
        assert(x + y =~= y);
    }
}

/// A text without surrounding whitespace trims to itself.
proof fn lemma_trim_plain(s: Seq<char>)
    requires
        s.len() > 0,
        !is_ws(s[0]),
        !is_ws(s.last()),
    ensures
        trim(s) == s,
{
    assert(lead_ws(s) == 0);
    assert(s.skip(0) =~= s);
    assert(trail_ws(s) == 0);
    assert(s.take(s.len() as int) =~= s);
}

/// Leading whitespace does not make a token.
proof fn lemma_tokens_after_space(y: Seq<char>)
    requires
        y.len() == 0 || !is_ws(y[0]),
    ensures
        tokens(seq![' '] + y) == tokens(y),
{
    let s = seq![' '] + y;
    assert(s.drop_first() =~= y);
    assert(lead_ws(y) == 0);
    assert(lead_ws(s) == 1);
    if y.len() > 0 {
        assert(s.skip(1) =~= y);
        assert(y.skip(0) =~= y);
    }
}

/// A word, a space, and the rest: the word is the first token.
proof fn lemma_tokens_cons(x: Seq<char>, y: Seq<char>)
    requires
        x.len() > 0,
        no_ws(x),
        y.len() == 0 || !is_ws(y[0]),
    ensures
        tokens(x + seq![' '] + y) == seq![x] + tokens(y),
{
    let s = x + seq![' '] + y;
    assert(s =~= x + (seq![' '] + y));
    assert(s[0] == x[0]);
    assert(lead_ws(s) == 0);
    assert(s.skip(0) =~= s);
    lemma_first_ws_concat(x, seq![' '] + y);
    assert(first_ws(seq![' '] + y) == 0);
    assert(s.take(x.len() as int) =~= x);
    assert(s.skip(x.len() as int) =~= seq![' '] + y);
    lemma_tokens_after_space(y);
}

/// A single word is a single token.
proof fn lemma_tokens_single(x: Seq<char>)
    requires
        x.len() > 0,
        no_ws(x),
    ensures
        tokens(x) == seq![x],
{
    assert(x[0] == x[0]);
    assert(lead_ws(x) == 0);
    assert(x.skip(0) =~= x);
    lemma_first_ws_concat(x, Seq::<char>::empty());
    assert(x + Seq::<char>::empty() =~= x);
    assert(x.take(x.len() as int) =~= x);
    assert(x.skip(x.len() as int) =~= Seq::<char>::empty());
    assert(tokens(Seq::<char>::empty()) =~= Seq::<Seq<char>>::empty());
    assert(seq![x] + Seq::<Seq<char>>::empty() =~= seq![x]);
}

/// A face line without its line break: `3 a b c`.
pub open spec fn face_body(t: Tri) -> Seq<char> {
    seq!['3'] + seq![' '] + decimal(t.0 as nat) + seq![' '] + decimal(t.1 as nat) + seq![' ']
        + decimal(t.2 as nat)
}

/// A triangle as the reader holds it.
pub open spec fn as_face(t: Tri) -> Face {
    (t.0 as u32, t.1 as u32, t.2 as u32)
}

/// Whether every index of every triangle fits the reader's 32 bits.
pub open spec fn indices_fit(tris: Seq<Tri>) -> bool {
    forall|i: int|
        0 <= i < tris.len() ==> (#[trigger] tris[i]).0 <= u32::MAX && tris[i].1 <= u32::MAX
            && tris[i].2 <= u32::MAX
}

/// A written face line reads back as its triangle.
proof fn lemma_face_line(t: Tri)
    requires
        t.0 <= u32::MAX,
        t.1 <= u32::MAX,
        t.2 <= u32::MAX,
    ensures
        face_line(t) == face_body(t) + seq!['\n'],
        no_newline(face_body(t)),
        strip_cr(face_body(t)) == face_body(t),
        trim(face_body(t)) == face_body(t),
        face_body(t).len() > 0,
        face_spec(tokens(face_body(t))) == Ok::<Face, Seq<char>>(as_face(t)),
{
    reveal_strlit("3 ");
    reveal_strlit(" ");
    reveal_strlit("\n");
    let da = decimal(t.0 as nat);
    let db = decimal(t.1 as nat);
    let dc = decimal(t.2 as nat);
    lemma_decimal(t.0 as nat);
    lemma_decimal(t.1 as nat);
    lemma_decimal(t.2 as nat);
    lemma_digits_no_ws(da);
    lemma_digits_no_ws(db);
    lemma_digits_no_ws(dc);
    let body = face_body(t);
    assert(face_line(t) =~= body + seq!['\n']);
    assert(body =~= seq!['3'] + seq![' '] + (da + seq![' '] + (db + seq![' '] + dc)));
    assert(no_newline(body)) by {
        assert forall|i: int| 0 <= i < body.len() implies #[trigger] body[i] != '\n' by {
            if i >= 2 && i < 2 + da.len() {
                assert(body[i] == da[i - 2]);
            } else if i >= 3 + da.len() && i < 3 + da.len() + db.len() {
                assert(body[i] == db[i - 3 - da.len()]);
            } else if i >= 4 + da.len() + db.len() {
                assert(body[i] == dc[i - 4 - da.len() - db.len()]);
            }
        }
    }
    assert(body.last() == dc.last());
    assert(is_digit(dc[dc.len() - 1]));
    lemma_trim_plain(body);
    assert(is_digit(da[0]) && is_digit(db[0]) && is_digit(dc[0]));
    lemma_tokens_single(dc);
    lemma_tokens_cons(db, dc);
    lemma_tokens_cons(da, db + seq![' '] + dc);
    assert(no_ws(seq!['3']));
    lemma_tokens_cons(seq!['3'], da + seq![' '] + (db + seq![' '] + dc));
    assert(da + seq![' '] + (db + seq![' '] + dc) =~= da + seq![' '] + db + seq![' '] + dc);
    let ts = tokens(body);
    assert(ts =~= seq![seq!['3'], da, db, dc]);
    lemma_parse_decimal(3);
    assert(decimal(3) =~= seq!['3']);
    lemma_parse_decimal(t.0 as nat);
    lemma_parse_decimal(t.1 as nat);
    lemma_parse_decimal(t.2 as nat);
    assert(parse_u32_spec(da) == Some(t.0 as u32));
    assert(parse_u32_spec(db) == Some(t.1 as u32));
    assert(parse_u32_spec(dc) == Some(t.2 as u32));
}

/// The text of lines, each followed by a line break.
pub open spec fn joined(ls: Seq<Seq<char>>) -> Seq<char>
    decreases ls.len(),
{
    if ls.len() == 0 {
        Seq::empty()
    } else {
        joined(ls.drop_last()) + ls.last() + seq!['\n']
    }
}

/// Whether each of `ls` is one line: no line break in it, and no carriage
/// return ending it.
pub open spec fn single_lines(ls: Seq<Seq<char>>) -> bool {
    forall|i: int|
        0 <= i < ls.len() ==> no_newline(#[trigger] ls[i]) && strip_cr(ls[i]) == ls[i]
}

proof fn lemma_one_line(x: Seq<char>)
    requires
        no_newline(x),
        strip_cr(x) == x,
    ensures
        lines_of(x + seq!['\n']) == seq![x],
{
    assert(x + seq!['\n'] =~= x + seq!['\n'] + Seq::<char>::empty());
    lemma_line_cons(x, Seq::<char>::empty());
    assert(lines_of(Seq::<char>::empty()) =~= Seq::<Seq<char>>::empty());
    assert(seq![x] + Seq::<Seq<char>>::empty() =~= seq![x]);
}

/// Joined lines split back into the same lines.
proof fn lemma_joined_lines(ls: Seq<Seq<char>>)
    requires
        single_lines(ls),
    ensures
        lines_of(joined(ls)) == ls,
        joined(ls).len() == 0 || joined(ls).last() == '\n',
    decreases ls.len(),
{
    if ls.len() > 0 {
        let p = ls.drop_last();
        assert(single_lines(p)) by {
            assert forall|i: int| 0 <= i < p.len() implies no_newline(#[trigger] p[i]) && strip_cr(p[i]) == p[i] by {
                assert(p[i] == ls[i]);
            }
        }
        lemma_joined_lines(p);
        let x = ls.last();
        assert(no_newline(ls[ls.len() - 1]));
        lemma_one_line(x);
        assert(joined(ls) =~= joined(p) + (x + seq!['\n']));
        lemma_lines_append(joined(p), x + seq!['\n']);
        assert(ls =~= p + seq![x]);
    }
}

/// The written face section splits into the face lines.
proof fn lemma_face_section(tris: Seq<Tri>)
    requires
        indices_fit(tris),
    ensures
        face_lines_spec(tris) == joined(tris.map_values(|t: Tri| face_body(t))),
        single_lines(tris.map_values(|t: Tri| face_body(t))),
    decreases tris.len(),
{
    let bodies = tris.map_values(|t: Tri| face_body(t));
    if tris.len() > 0 {
        let p = tris.drop_last();
        assert(indices_fit(p)) by {
            assert forall|i: int| 0 <= i < p.len() implies (#[trigger] p[i]).0 <= u32::MAX && p[i].1 <= u32::MAX && p[i].2 <= u32::MAX by {
                assert(p[i] == tris[i]);
            }
        }
        lemma_face_section(p);
        assert(p.map_values(|t: Tri| face_body(t)) =~= bodies.drop_last());
        let t = tris.last();
        assert(tris[tris.len() - 1] == t);
        lemma_face_line(t);
        assert(face_lines_spec(tris) =~= joined(bodies));
        assert forall|i: int| 0 <= i < bodies.len() implies no_newline(#[trigger] bodies[i]) && strip_cr(bodies[i]) == bodies[i] by {
            assert(bodies[i] == face_body(tris[i]));
            lemma_face_line(tris[i]);
        }
    } else {
        assert(bodies =~= Seq::<Seq<char>>::empty());
    }
}

/// Run the reader over `lines` as long as every line is accepted without
/// stopping: the state after the last one.
pub open spec fn run_through(st: PlyState, lines: Seq<Seq<char>>) -> Option<PlyState>
    decreases lines.len(),
{
    if lines.len() == 0 {
        Some(st)
    } else {
        match ply_line(st, lines[0]) {
            Ok((stop, st2)) => if stop {
                None
            } else {
                run_through(st2, lines.drop_first())
            },
            Err(_) => None,
        }
    }
}

/// Lines the reader runs through leave it where the rest starts.
proof fn lemma_run_concat(st: PlyState, a: Seq<Seq<char>>, b: Seq<Seq<char>>)
    requires
        run_through(st, a) is Some,
    ensures
        ply_run(st, a + b) == ply_run(run_through(st, a)->0, b),
    decreases a.len(),
{
    if a.len() > 0 {
        assert((a + b)[0] == a[0]);
        assert((a + b).drop_first() =~= a.drop_first() + b);
        match ply_line(st, a[0]) {
            Ok((stop, st2)) => {
                lemma_run_concat(st2, a.drop_first(), b);
            },
            Err(_) => {},
        }
    } else {
        assert(a + b =~= b);
    }
}

/// Whether each line of `ls` is a vertex line that reads as the matching
/// view when the header declares `nprops` properties.
pub open spec fn vertex_lines_read(ls: Seq<Seq<char>>, views: Seq<VertexView>, nprops: usize) -> bool {
    &&& ls.len() == views.len()
    &&& forall|i: int|
        0 <= i < ls.len() ==> trim(#[trigger] ls[i]).len() > 0 && vertex_spec(
            tokens(trim(ls[i])),
            nprops,
        ) == Ok::<VertexView, Seq<char>>(views[i])
}

proof fn lemma_vertex_run(st: PlyState, ls: Seq<Seq<char>>, views: Seq<VertexView>)
    requires
        !st.0,
        st.4.len() + ls.len() <= st.1,
        vertex_lines_read(ls, views, st.3),
    ensures
        run_through(st, ls) == Some((st.0, st.1, st.2, st.3, st.4 + views, st.5)),
    decreases ls.len(),
{
    if ls.len() > 0 {
        let st2 = (st.0, st.1, st.2, st.3, st.4.push(views[0]), st.5);
        assert(trim(ls[0]).len() > 0);
        assert(ply_line(st, ls[0]) == Ok::<(bool, PlyState), Seq<char>>((false, st2)));
        let rest = ls.drop_first();
        let vrest = views.drop_first();
        assert(vertex_lines_read(rest, vrest, st.3)) by {
            assert forall|i: int| 0 <= i < rest.len() implies trim(#[trigger] rest[i]).len() > 0
                && vertex_spec(tokens(trim(rest[i])), st.3) == Ok::<VertexView, Seq<char>>(
                vrest[i],
            ) by {
                assert(rest[i] == ls[i + 1]);
                assert(vrest[i] == views[i + 1]);
            }
        }
        lemma_vertex_run(st2, rest, vrest);
        assert(st.4.push(views[0]) + vrest =~= st.4 + views);
    } else {
        assert(st.4 + views =~= st.4);
    }
}

proof fn lemma_face_run(st: PlyState, tris: Seq<Tri>)
    requires
        !st.0,
        st.4.len() == st.1,
        st.5.len() + tris.len() <= st.2,
        indices_fit(tris),
    ensures
        run_through(st, tris.map_values(|t: Tri| face_body(t))) == Some(
            (st.0, st.1, st.2, st.3, st.4, st.5 + tris.map_values(|t: Tri| as_face(t))),
        ),
    decreases tris.len(),
{
    let ls = tris.map_values(|t: Tri| face_body(t));
    if tris.len() > 0 {
        let t = tris[0];
        lemma_face_line(t);
        let st2 = (st.0, st.1, st.2, st.3, st.4, st.5.push(as_face(t)));
        assert(ls[0] == face_body(t));
        assert(ply_line(st, ls[0]) == Ok::<(bool, PlyState), Seq<char>>((false, st2)));
        let rest = tris.drop_first();
        assert(indices_fit(rest)) by {
            assert forall|i: int| 0 <= i < rest.len() implies (#[trigger] rest[i]).0 <= u32::MAX && rest[i].1 <= u32::MAX && rest[i].2 <= u32::MAX by {
                assert(rest[i] == tris[i + 1]);
            }
        }
        lemma_face_run(st2, rest);
        assert(ls.drop_first() =~= rest.map_values(|t: Tri| face_body(t)));
        assert(st.5.push(as_face(t)) + rest.map_values(|t: Tri| as_face(t)) =~= st.5
            + tris.map_values(|t: Tri| as_face(t)));
    } else {
        assert(st.5 + tris.map_values(|t: Tri| as_face(t)) =~= st.5);
    }
}

/// The property count the reader takes from the written header: three it
/// starts from, and one per `property` line (seven).
pub open spec fn header_props() -> usize {
    10
}

/// The lines of the written header.
pub open spec fn header_lines(nv: nat, nf: nat) -> Seq<Seq<char>> {
    seq![
        "ply"@,
        "format ascii 1.0"@,
        "element vertex "@ + decimal(nv),
        "property float x"@,
        "property float y"@,
        "property float z"@,
        "property float u"@,
        "property float v"@,
        "property int part"@,
        "element face "@ + decimal(nf),
        "property list uchar int vertex_indices"@,
        "end_header"@,
    ]
}

proof fn lemma_not_prefix(s: Seq<char>, p: Seq<char>, i: int)
    requires
        0 <= i < p.len(),
        i < s.len(),
        s[i] != p[i],
    ensures
        !starts_with(s, p),
{
    if s.len() >= p.len() {
        assert(s.take(p.len() as int)[i] != p[i]);
    }
}

proof fn lemma_piece_lines(body: Seq<char>, piece: Seq<char>)
    requires
        piece == body + seq!['\n'],
        no_newline(body),
        strip_cr(body) == body,
    ensures
        lines_of(piece) == seq![body],
        piece.len() > 0 && piece.last() == '\n',
{
    lemma_one_line(body);
}

proof fn lemma_counted_line(lit: Seq<char>, n: nat)
    requires
        lit.len() > 0,
        no_newline(lit),
        !is_ws(lit[0]),
    ensures
        no_newline(lit + decimal(n)),
        strip_cr(lit + decimal(n)) == lit + decimal(n),
        trim(lit + decimal(n)) == lit + decimal(n),
        (lit + decimal(n)).skip(lit.len() as int) == decimal(n),
        (lit + decimal(n)).take(lit.len() as int) == lit,
        (lit + decimal(n)).len() > lit.len(),
{
    let d = decimal(n);
    let s = lit + d;
    lemma_decimal(n);
    lemma_digits_no_ws(d);
    assert(no_newline(s)) by {
        assert forall|i: int| 0 <= i < s.len() implies #[trigger] s[i] != '\n' by {
            if i >= lit.len() {
                assert(s[i] == d[i - lit.len()]);
            } else {
                assert(s[i] == lit[i]);
            }
        }
    }
    assert(s.last() == d[d.len() - 1]);
    assert(is_digit(d[d.len() - 1]));
    assert(s[0] == lit[0]);
    lemma_trim_plain(s);
    assert(s.skip(lit.len() as int) =~= d);
    assert(s.take(lit.len() as int) =~= lit);
}

/// The written header splits into its lines.
proof fn lemma_header_lines(nv: nat, nf: nat)
    ensures
        lines_of(ply_header_spec(nv, nf)) == header_lines(nv, nf),
        ply_header_spec(nv, nf).last() == '\n',
{
    reveal_strlit("ply\n");
    reveal_strlit("format ascii 1.0\n");
    reveal_strlit("element vertex ");
    reveal_strlit("\n");
    reveal_strlit("property float x\n");
    reveal_strlit("property float y\n");
    reveal_strlit("property float z\n");
    reveal_strlit("property float u\n");
    reveal_strlit("property float v\n");
    reveal_strlit("property int part\n");
    reveal_strlit("element face ");
    reveal_strlit("property list uchar int vertex_indices\n");
    reveal_strlit("end_header\n");
    reveal_strlit("ply");
    reveal_strlit("format ascii 1.0");
    reveal_strlit("property float x");
    reveal_strlit("property float y");
    reveal_strlit("property float z");
    reveal_strlit("property float u");
    reveal_strlit("property float v");
    reveal_strlit("property int part");
    reveal_strlit("property list uchar int vertex_indices");
    reveal_strlit("end_header");
    let p1 = "ply\n"@;
    let p2 = "format ascii 1.0\n"@;
    let p3 = "element vertex "@ + decimal(nv) + "\n"@;
    let p4 = "property float x\n"@;
    let p5 = "property float y\n"@;
    let p6 = "property float z\n"@;
    let p7 = "property float u\n"@;
    let p8 = "property float v\n"@;
    let p9 = "property int part\n"@;
    let p10 = "element face "@ + decimal(nf) + "\n"@;
    let p11 = "property list uchar int vertex_indices\n"@;
    let p12 = "end_header\n"@;
    assert(p1 =~= "ply"@ + seq!['\n']);
    lemma_piece_lines("ply"@, p1);
    assert(p2 =~= "format ascii 1.0"@ + seq!['\n']);
    lemma_piece_lines("format ascii 1.0"@, p2);
    lemma_counted_line("element vertex "@, nv);
    assert(p3 =~= ("element vertex "@ + decimal(nv)) + seq!['\n']);
    lemma_piece_lines("element vertex "@ + decimal(nv), p3);
    assert(p4 =~= "property float x"@ + seq!['\n']);
    lemma_piece_lines("property float x"@, p4);
    assert(p5 =~= "property float y"@ + seq!['\n']);
    lemma_piece_lines("property float y"@, p5);
    assert(p6 =~= "property float z"@ + seq!['\n']);
    lemma_piece_lines("property float z"@, p6);
    assert(p7 =~= "property float u"@ + seq!['\n']);
    lemma_piece_lines("property float u"@, p7);
    assert(p8 =~= "property float v"@ + seq!['\n']);
    lemma_piece_lines("property float v"@, p8);
    assert(p9 =~= "property int part"@ + seq!['\n']);
    lemma_piece_lines("property int part"@, p9);
    lemma_counted_line("element face "@, nf);
    assert(p10 =~= ("element face "@ + decimal(nf)) + seq!['\n']);
    lemma_piece_lines("element face "@ + decimal(nf), p10);
    assert(p11 =~= "property list uchar int vertex_indices"@ + seq!['\n']);
    lemma_piece_lines("property list uchar int vertex_indices"@, p11);
    assert(p12 =~= "end_header"@ + seq!['\n']);
    lemma_piece_lines("end_header"@, p12);
    let a1 = p1;
    let a2 = a1 + p2;
    lemma_lines_append(a1, p2);
    let a3 = a2 + p3;
    lemma_lines_append(a2, p3);
    let a4 = a3 + p4;
    lemma_lines_append(a3, p4);
    let a5 = a4 + p5;
    lemma_lines_append(a4, p5);
    let a6 = a5 + p6;
    lemma_lines_append(a5, p6);
    let a7 = a6 + p7;
    lemma_lines_append(a6, p7);
    let a8 = a7 + p8;
    lemma_lines_append(a7, p8);
    let a9 = a8 + p9;
    lemma_lines_append(a8, p9);
    let a10 = a9 + p10;
    lemma_lines_append(a9, p10);
    let a11 = a10 + p11;
    lemma_lines_append(a10, p11);
    let a12 = a11 + p12;
    lemma_lines_append(a11, p12);
    assert(ply_header_spec(nv, nf) =~= a12);
    assert(lines_of(a12) =~= header_lines(nv, nf));
}

/// The reader accepts `line` in state `st` and moves on to `st2`.
#[verifier::opaque]
spec fn accepts(st: PlyState, line: Seq<char>, st2: PlyState) -> bool {
    ply_line(st, line) == Ok::<(bool, PlyState), Seq<char>>((false, st2))
}

proof fn lemma_run_step(st: PlyState, lines: Seq<Seq<char>>, st2: PlyState)
    requires
        lines.len() > 0,
        accepts(st, lines[0], st2),
    ensures
        run_through(st, lines) == run_through(st2, lines.drop_first()),
{
    reveal(accepts);
}

/// A chain of accepted lines: from `states[k]`, the reader ends at the
/// last state.
proof fn lemma_run_chain(states: Seq<PlyState>, lines: Seq<Seq<char>>, k: int)
    requires
        0 <= k <= lines.len(),
        states.len() == lines.len() + 1,
        forall|j: int| k <= j < lines.len() ==> accepts(#[trigger] states[j], lines[j], states[j + 1]),
    ensures
        run_through(states[k], lines.skip(k)) == Some(states[lines.len() as int]),
    decreases lines.len() - k,
{
    if k == lines.len() {
        assert(lines.skip(k) =~= Seq::<Seq<char>>::empty());
    } else {
        lemma_run_chain(states, lines, k + 1);
        assert(lines.skip(k)[0] == lines[k]);
        assert(lines.skip(k).drop_first() =~= lines.skip(k + 1));
        assert(accepts(states[k], lines[k], states[k + 1]));
        lemma_run_step(states[k], lines.skip(k), states[k + 1]);
    }
}

/// A header line the reader passes over unchanged.
proof fn lemma_accept_other(st: PlyState, line: Seq<char>)
    requires
        st.0,
        line.len() > 0,
        !is_ws(line[0]),
        !is_ws(line.last()),
        line.len() < 9 || (line[0] != 'e' && line[0] != 'p'),
    ensures
        accepts(st, line, st),
{
    reveal(accepts);
    reveal_strlit("element vertex ");
    reveal_strlit("element face ");
    reveal_strlit("property ");
    reveal_strlit("end_header");
    lemma_trim_plain(line);
    if line.len() >= 9 {
        lemma_not_prefix(line, "element vertex "@, 0);
        lemma_not_prefix(line, "element face "@, 0);
        lemma_not_prefix(line, "property "@, 0);
    }
    assert(line != "end_header"@) by {
        assert("end_header"@[0] == 'e');
    }
}

/// A property line counts one more property.
proof fn lemma_accept_property(st: PlyState, line: Seq<char>)
    requires
        st.0,
        st.3 < usize::MAX,
        line.len() >= 9,
        line.take(9) == "property "@,
        !is_ws(line.last()),
    ensures
        accepts(st, line, (true, st.1, st.2, (st.3 + 1) as usize, st.4, st.5)),
{
    reveal(accepts);
    reveal_strlit("element vertex ");
    reveal_strlit("element face ");
    reveal_strlit("property ");
    reveal_strlit("end_header");
    assert(line.take(9)[0] == line[0]);
    assert(line[0] == 'p');
    lemma_trim_plain(line);
    lemma_not_prefix(line, "element vertex "@, 0);
    lemma_not_prefix(line, "element face "@, 0);
    assert(line != "end_header"@) by {
        assert("end_header"@[0] == 'e');
    }
}

/// The vertex-count line sets the vertex count.
proof fn lemma_accept_vertex_count(st: PlyState, nv: nat)
    requires
        st.0,
        nv <= usize::MAX,
    ensures
        accepts(st, "element vertex "@ + decimal(nv), (true, nv as usize, st.2, st.3, st.4, st.5)),
{
    reveal(accepts);
    reveal_strlit("element vertex ");
    reveal_strlit("end_header");
    let line = "element vertex "@ + decimal(nv);
    lemma_counted_line("element vertex "@, nv);
    lemma_parse_decimal(nv);
    assert(line != "end_header"@);
}

/// The face-count line sets the face count.
proof fn lemma_accept_face_count(st: PlyState, nf: nat)
    requires
        st.0,
        nf <= usize::MAX,
    ensures
        accepts(st, "element face "@ + decimal(nf), (true, st.1, nf as usize, st.3, st.4, st.5)),
{
    reveal(accepts);
    reveal_strlit("element vertex ");
    reveal_strlit("element face ");
    reveal_strlit("end_header");
    let line = "element face "@ + decimal(nf);
    lemma_counted_line("element face "@, nf);
    lemma_parse_decimal(nf);
    assert(line[8] == 'f');
    lemma_not_prefix(line, "element vertex "@, 8);
    assert(line != "end_header"@);
}

/// The end of the header.
proof fn lemma_accept_end(st: PlyState)
    requires
        st.0,
    ensures
        accepts(st, "end_header"@, (false, st.1, st.2, st.3, st.4, st.5)),
{
    reveal(accepts);
    reveal_strlit("end_header");
    lemma_trim_plain("end_header"@);
}

/// The reader runs through the written header: out of the header, with
/// the declared counts and [`header_props`] properties.
proof fn lemma_header_run(nv: nat, nf: nat)
    requires
        nv <= usize::MAX,
        nf <= usize::MAX,
    ensures
        run_through(ply_start(), header_lines(nv, nf)) == Some(
            (false, nv as usize, nf as usize, header_props(), Seq::<VertexView>::empty(), Seq::<Face>::empty()),
        ),
{
    let hl = header_lines(nv, nf);
    let vs = Seq::<VertexView>::empty();
    let fs = Seq::<Face>::empty();
    let n = nv as usize;
    let f = nf as usize;
    let states: Seq<PlyState> = seq![
        (true, 0usize, 0usize, 3usize, vs, fs),
        (true, 0usize, 0usize, 3usize, vs, fs),
        (true, 0usize, 0usize, 3usize, vs, fs),
        (true, n, 0usize, 3usize, vs, fs),
        (true, n, 0usize, 4usize, vs, fs),
        (true, n, 0usize, 5usize, vs, fs),
        (true, n, 0usize, 6usize, vs, fs),
        (true, n, 0usize, 7usize, vs, fs),
        (true, n, 0usize, 8usize, vs, fs),
        (true, n, 0usize, 9usize, vs, fs),
        (true, n, f, 9usize, vs, fs),
        (true, n, f, 10usize, vs, fs),
        (false, n, f, 10usize, vs, fs),
    ];
    reveal_strlit("ply");
    reveal_strlit("format ascii 1.0");
    lemma_accept_other(states[0], hl[0]);
    lemma_accept_other(states[1], hl[1]);
    lemma_accept_vertex_count(states[2], nv);
    reveal_strlit("property ");
    reveal_strlit("property float x");
    reveal_strlit("property float y");
    reveal_strlit("property float z");
    reveal_strlit("property float u");
    reveal_strlit("property float v");
    reveal_strlit("property int part");
    reveal_strlit("property list uchar int vertex_indices");
    assert(hl[3].take(9) =~= "property "@);
    assert(hl[4].take(9) =~= "property "@);
    assert(hl[5].take(9) =~= "property "@);
    assert(hl[6].take(9) =~= "property "@);
    assert(hl[7].take(9) =~= "property "@);
    assert(hl[8].take(9) =~= "property "@);
    assert(hl[10].take(9) =~= "property "@);
    lemma_accept_property(states[3], hl[3]);
    lemma_accept_property(states[4], hl[4]);
    lemma_accept_property(states[5], hl[5]);
    lemma_accept_property(states[6], hl[6]);
    lemma_accept_property(states[7], hl[7]);
    lemma_accept_property(states[8], hl[8]);
    lemma_accept_face_count(states[9], nf);
    lemma_accept_property(states[10], hl[10]);
    lemma_accept_end(states[11]);
    lemma_run_chain(states, hl, 0);
    assert(hl.skip(0) =~= hl);
}

/// The mesh document reads back as the mesh: the header written for `nv`
/// vertices and the triangles `tris`, then `nv` vertex lines, then the
/// face lines of `tris`, is read as exactly the vertices those lines give
/// and exactly the triangles `tris`.  Each vertex line is a single line
/// that the reader accepts as a vertex under the written header, and every
/// index fits the reader's 32 bits.
pub proof fn written_mesh_reads_back(vlines: Seq<Seq<char>>, views: Seq<VertexView>, tris: Seq<Tri>)
    requires
        vlines.len() <= usize::MAX,
        tris.len() <= usize::MAX,
        single_lines(vlines),
        vertex_lines_read(vlines, views, header_props()),
        indices_fit(tris),
    ensures
        ply_spec(ply_header_spec(vlines.len(), tris.len()) + joined(vlines) + face_lines_spec(tris))
            == Ok::<PlyState, Seq<char>>(
            (
                false,
                vlines.len() as usize,
                tris.len() as usize,
                header_props(),
                views,
                tris.map_values(|t: Tri| as_face(t)),
            ),
        ),
{
    let nv: nat = vlines.len();
    let nf: nat = tris.len();
    let h = ply_header_spec(nv, nf);
    let v = joined(vlines);
    let f = face_lines_spec(tris);
    let hl = header_lines(nv, nf);
    let fb = tris.map_values(|t: Tri| face_body(t));
    lemma_header_lines(nv, nf);
    lemma_joined_lines(vlines);
    lemma_face_section(tris);
    lemma_joined_lines(fb);
    lemma_lines_append(h, v);
    assert((h + v).last() == '\n') by {
        if v.len() == 0 {
            assert(h + v =~= h);
        } else {
            assert((h + v).last() == v.last());
        }
    }
    lemma_lines_append(h + v, f);
    let lines = lines_of(h + v + f);
    assert(lines =~= hl + (vlines + fb));
    let vs = Seq::<VertexView>::empty();
    let fs = Seq::<Face>::empty();
    lemma_header_run(nv, nf);
    let st_h: PlyState = (false, nv as usize, nf as usize, header_props(), vs, fs);
    lemma_vertex_run(st_h, vlines, views);
    assert(vs + views =~= views);
    let st_v: PlyState = (false, nv as usize, nf as usize, header_props(), views, fs);
    lemma_face_run(st_v, tris);
    let faces = tris.map_values(|t: Tri| as_face(t));
    assert(fs + faces =~= faces);
    lemma_run_concat(ply_start(), hl, vlines + fb);
    lemma_run_concat(st_h, vlines, fb);
    lemma_run_concat(st_v, fb, Seq::<Seq<char>>::empty());
    assert(fb + Seq::<Seq<char>>::empty() =~= fb);
}

} // verus!
