//! Statements of the Wavefront OBJ text format, one line at a time: vertex
//! and normal records, faces with their index triples, group labels. The
//! numbers of vertex records are handed out as text; faces become fans of
//! triangles.
use vstd::prelude::*;

verus! {

/// One line of an OBJ file.
pub enum Statement {
    /// `v x y z`: the tokens after the keyword.
    Vertex(Vec<Vec<u8>>),
    /// `vn x y z`: the tokens after the keyword.
    Normal(Vec<Vec<u8>>),
    /// `f v/vt/vn ...`: for each corner, its slash-separated indices; an
    /// index that is missing or no number is `None`.
    Face(Vec<Vec<Option<usize>>>),
    /// `g label`: the faces that follow belong to the group `label`.
    Group(Vec<u8>),
    /// Anything else: comments, texture records, blank lines.
    Ignored,
}

/// ASCII whitespace: space, tab, line feed, vertical tab, form feed,
/// carriage return.
pub open spec fn is_space(b: u8) -> bool {
    b == 32 || (9 <= b && b <= 13)
}

/// The maximal runs of non-space bytes of `s`, in order.
pub open spec fn words(s: Seq<u8>) -> Seq<Seq<u8>>
    decreases s.len(),
{
    if s.len() == 0 {
        Seq::empty()
    } else {
        let w = words(s.drop_last());
        let c = s.last();
        if is_space(c) {
            w
        } else if s.len() >= 2 && !is_space(s[s.len() - 2]) {
            w.drop_last().push(w.last().push(c))
        } else {
            w.push(seq![c])
        }
    }
}

/// The pieces of `s` between slashes (an empty `s` is one empty piece).
pub open spec fn pieces(s: Seq<u8>) -> Seq<Seq<u8>>
    decreases s.len(),
{
    if s.len() == 0 {
        seq![Seq::empty()]
    } else {
        let p = pieces(s.drop_last());
        if s.last() == 47 {
            p.push(Seq::empty())
        } else {
            p.drop_last().push(p.last().push(s.last()))
        }
    }
}

/// The pieces of `s` between slashes, a last empty piece left out.
pub open spec fn slash_fields(s: Seq<u8>) -> Seq<Seq<u8>> {
    let p = pieces(s);
    if p.last().len() == 0 {
        p.drop_last()
    } else {
        p
    }
}

pub open spec fn is_digit(b: u8) -> bool {
    48 <= b && b <= 57
}

/// The number that the decimal digits `s` spell.
pub open spec fn digits_value(s: Seq<u8>) -> nat
    decreases s.len(),
{
    if s.len() == 0 {
        0
    } else {
        digits_value(s.drop_last()) * 10 + (s.last() - 48) as nat
    }
}

/// `s` without a leading `+`.
pub open spec fn unsigned_part(s: Seq<u8>) -> Seq<u8> {
    if s.len() > 0 && s[0] == 43 {
        s.drop_first()
    } else {
        s
    }
}

/// An unsigned index in decimal, with an optional `+` sign, if it fits.
pub open spec fn index_value(s: Seq<u8>) -> Option<usize> {
    let d = unsigned_part(s);
    if d.len() > 0 && (forall|i: int| 0 <= i < d.len() ==> is_digit(#[trigger] d[i]))
        && digits_value(d) <= usize::MAX {
        Some(digits_value(d) as usize)
    } else {
        None
    }
}

/// The indices of one face corner such as `3/1/2`, `3//2` or `3`.
pub open spec fn corner(s: Seq<u8>) -> Seq<Option<usize>> {
    slash_fields(s).map_values(|f: Seq<u8>| index_value(f))
}

proof fn lemma_digits_value_grows(s: Seq<u8>, c: u8)
    requires
        is_digit(c),
    ensures
        digits_value(s.push(c)) == digits_value(s) * 10 + (c - 48) as nat,
{
    assert(s.push(c).drop_last() =~= s);
}

/// Parses an index the way `usize::from_str` does.
pub fn parse_index(s: &[u8]) -> (r: Option<usize>)
    ensures
        r == index_value(s@),
{
    let start: usize = if s.len() > 0 && s[0] == 43u8 {
        1
    } else {
        0
    };
    let ghost d = unsigned_part(s@);
    assert(d =~= s@.subrange(start as int, s@.len() as int));
    if start >= s.len() {
        return None;
    }
    let mut value: usize = 0;
    let mut k: usize = start;
    while k < s.len()
        invariant
            start <= k <= s@.len(),
            d == s@.subrange(start as int, s@.len() as int),
            d == unsigned_part(s@),
            forall|i: int| start <= i < k ==> is_digit(#[trigger] s@[i]),
            value == digits_value(s@.subrange(start as int, k as int)),
        decreases s@.len() - k,
    {
        let c = s[k];
        if c < 48u8 || c > 57u8 {
            proof {
                assert(d[k - start] == c);
                assert(!is_digit(d[k - start]));
            }
            return None;
        }
        proof {
            lemma_digits_value_grows(s@.subrange(start as int, k as int), c);
            assert(s@.subrange(start as int, k + 1) =~= s@.subrange(start as int, k as int).push(c));
        }
        let digit = (c - 48u8) as usize;
        if value > (usize::MAX - digit) / 10 {
            proof {
                assert(value * 10 + digit > usize::MAX) by (nonlinear_arith)
                    requires
                        value > (usize::MAX - digit) / 10,
                        digit <= 9,
                ;
                if forall|i: int| 0 <= i < d.len() ==> is_digit(#[trigger] d[i]) {
                    lemma_digits_value_prefix(d, (k - start) as int);
                    assert(d.subrange(0, k - start + 1) =~= s@.subrange(start as int, k + 1));
                }
            }
            return None;
        }
        value = value * 10 + digit;
        k = k + 1;
    }
    proof {
        assert(s@.subrange(start as int, k as int) =~= d);
        assert forall|i: int| 0 <= i < d.len() implies is_digit(#[trigger] d[i]) by {
            assert(d[i] == s@[start + i]);
        }
    }
    Some(value)
}

/// The value of a digit string is at least that of any prefix.
proof fn lemma_digits_value_prefix(d: Seq<u8>, n: int)
    requires
        0 <= n < d.len(),
        forall|i: int| 0 <= i < d.len() ==> is_digit(#[trigger] d[i]),
    ensures
        digits_value(d) >= digits_value(d.subrange(0, n + 1)),
    decreases d.len(),
{
    if d.len() > n + 1 {
        let e = d.drop_last();
        assert forall|i: int| 0 <= i < e.len() implies is_digit(#[trigger] e[i]) by {
            assert(e[i] == d[i]);
        }
        lemma_digits_value_prefix(e, n);
        assert(e.subrange(0, n + 1) =~= d.subrange(0, n + 1));
    } else {
        assert(d.subrange(0, n + 1) =~= d);
    }
}

pub open spec fn word_views(ws: Seq<Vec<u8>>) -> Seq<Seq<u8>> {
    ws.map_values(|w: Vec<u8>| w@)
}

pub open spec fn corner_views(cs: Seq<Vec<Option<usize>>>) -> Seq<Seq<Option<usize>>> {
    cs.map_values(|c: Vec<Option<usize>>| c@)
}

/// The keyword of a line: its first word, if any.
pub open spec fn keyword(line: Seq<u8>) -> Seq<u8> {
    if words(line).len() == 0 {
        Seq::empty()
    } else {
        words(line)[0]
    }
}

/// The statement that a line holds, by its keyword and the words after it.
pub open spec fn statement_matches(r: Statement, line: Seq<u8>) -> bool {
    let ws = words(line);
    let k = keyword(line);
    match r {
        Statement::Vertex(args) => k == seq![118u8] && word_views(args@) == ws.drop_first(),
        Statement::Normal(args) => k == seq![118u8, 110u8] && word_views(args@) == ws.drop_first(),
        Statement::Face(corners) => k == seq![102u8] && corner_views(corners@) == ws.drop_first().map_values(
            |w: Seq<u8>| corner(w),
        ),
        Statement::Group(label) => k == seq![103u8] && ws.len() > 1 && label@ == ws[1],
        Statement::Ignored => !(k == seq![118u8] || k == seq![118u8, 110u8] || k == seq![102u8] || (k
            == seq![103u8] && ws.len() > 1)),
    }
}

fn is_space_byte(b: u8) -> (r: bool)
    ensures
        r == is_space(b),
{
    b == 32u8 || (9u8 <= b && b <= 13u8)
}

/// Splits a line into its words, as `str::split_whitespace` does on ASCII.
pub fn split_words(s: &[u8]) -> (r: Vec<Vec<u8>>)
    ensures
        word_views(r@) == words(s@),
{
    let mut r: Vec<Vec<u8>> = Vec::new();
    let mut k: usize = 0;
    proof {
        assert(s@.subrange(0, 0) =~= Seq::<u8>::empty());
        assert(word_views(r@) =~= Seq::<Seq<u8>>::empty());
    }
    while k < s.len()
        invariant
            k <= s@.len(),
            word_views(r@) == words(s@.subrange(0, k as int)),
            k > 0 && !is_space(s@[k - 1]) ==> r@.len() > 0,
        decreases s@.len() - k,
    {
        let c = s[k];
        let ghost prev = word_views(r@);
        proof {
            let t = s@.subrange(0, k + 1);
            assert(t.drop_last() =~= s@.subrange(0, k as int));
            assert(t.last() == c);
            if k >= 1 {
                assert(t[t.len() - 2] == s@[k - 1]);
            }
        }
        if is_space_byte(c) {
        } else if k >= 1 && !is_space_byte(s[k - 1]) {
            let last = r.len() - 1;
            r[last].push(c);
            proof {
                assert(word_views(r@) =~= prev.drop_last().push(prev.last().push(c)));
            }
        } else {
            let mut w: Vec<u8> = Vec::new();
            w.push(c);
            r.push(w);
            proof {
                assert(word_views(r@) =~= prev.push(seq![c]));
            }
        }
        k = k + 1;
    }
    proof {
        assert(s@.subrange(0, s@.len() as int) =~= s@);
    }
    r
}

/// Splits a face corner at its slashes, a last empty field left out, and
/// reads each field as an index.
pub fn parse_corner(s: &[u8]) -> (r: Vec<Option<usize>>)
    ensures
        r@ == corner(s@),
{
    let mut fields: Vec<Vec<u8>> = Vec::new();
    fields.push(Vec::new());
    let mut k: usize = 0;
    proof {
        assert(s@.subrange(0, 0) =~= Seq::<u8>::empty());
        assert(word_views(fields@) =~= pieces(Seq::<u8>::empty()));
    }
    while k < s.len()
        invariant
            k <= s@.len(),
            word_views(fields@) == pieces(s@.subrange(0, k as int)),
            fields@.len() > 0,
        decreases s@.len() - k,
    {
        let c = s[k];
        let ghost prev = word_views(fields@);
        proof {
            let t = s@.subrange(0, k + 1);
            assert(t.drop_last() =~= s@.subrange(0, k as int));
            assert(t.last() == c);
        }
        if c == 47u8 {
            fields.push(Vec::new());
            proof {
                assert(word_views(fields@) =~= prev.push(Seq::empty()));
            }
        } else {
            let last = fields.len() - 1;
            fields[last].push(c);
            proof {
                assert(word_views(fields@) =~= prev.drop_last().push(prev.last().push(c)));
            }
        }
        k = k + 1;
    }
    proof {
        assert(s@.subrange(0, s@.len() as int) =~= s@);
    }
    let ghost all = word_views(fields@);
    if fields[fields.len() - 1].len() == 0 {
        fields.pop();
        proof {
            assert(word_views(fields@) =~= all.drop_last());
        }
    }
    assert(word_views(fields@) == slash_fields(s@));
    let mut r: Vec<Option<usize>> = Vec::new();
    let mut j: usize = 0;
    while j < fields.len()
        invariant
            j <= fields@.len(),
            word_views(fields@) == slash_fields(s@),
            r@ == slash_fields(s@).subrange(0, j as int).map_values(|f: Seq<u8>| index_value(f)),
        decreases fields@.len() - j,
    {
        let v = parse_index(fields[j].as_slice());
        r.push(v);
        proof {
            assert(fields@[j as int]@ == slash_fields(s@)[j as int]);
            assert(r@ =~= slash_fields(s@).subrange(0, j + 1).map_values(|f: Seq<u8>| index_value(f)));
        }
        j = j + 1;
    }
    proof {
        assert(slash_fields(s@).subrange(0, j as int) =~= slash_fields(s@));
    }
    r
}

fn is_keyword(w: &Vec<u8>, a: u8, b: Option<u8>) -> (r: bool)
    ensures
        r == (w@ == match b {
            Some(b) => seq![a, b],
            None => seq![a],
        }),
{
    match b {
        Some(b) => {
            let r = w.len() == 2 && w[0] == a && w[1] == b;
            proof {
                if w@.len() == 2 && w@[0] == a && w@[1] == b {
                    assert(w@ =~= seq![a, b]);
                }
            }
            r
        },
        None => {
            let r = w.len() == 1 && w[0] == a;
            proof {
                if w@.len() == 1 && w@[0] == a {
                    assert(w@ =~= seq![a]);
                }
            }
            r
        },
    }
}

/// Reads one line of an OBJ file.
pub fn parse_line(line: &[u8]) -> (r: Statement)
    ensures
        statement_matches(r, line@),
{
    let mut ws = split_words(line);
    proof {
        assert(seq![118u8].len() == 1 && seq![102u8].len() == 1 && seq![103u8].len() == 1);
        assert(seq![118u8, 110u8].len() == 2);
    }
    if ws.len() == 0 {
        return Statement::Ignored;
    }
    let ghost all = word_views(ws@);
    let first = ws.remove(0);
    proof {
        assert(word_views(ws@) =~= all.drop_first());
        assert(first@ == keyword(line@));
    }
    if is_keyword(&first, 118u8, None) {
        Statement::Vertex(ws)
    } else if is_keyword(&first, 118u8, Some(110u8)) {
        Statement::Normal(ws)
    } else if is_keyword(&first, 102u8, None) {
        let mut corners: Vec<Vec<Option<usize>>> = Vec::new();
        let mut j: usize = 0;
        while j < ws.len()
            invariant
                j <= ws@.len(),
                all.len() > 0,
                corners@.len() == j,
                ws@.len() == all.len() - 1,
                word_views(ws@) == all.drop_first(),
                corner_views(corners@) == all.drop_first().subrange(0, j as int).map_values(
                    |w: Seq<u8>| corner(w),
                ),
            decreases ws@.len() - j,
        {
            let c = parse_corner(ws[j].as_slice());
            let ghost prev = corner_views(corners@);
            let ghost cv = c@;
            corners.push(c);
            proof {
                assert(corner_views(corners@) =~= prev.push(cv));
                assert(ws@[j as int]@ == all.drop_first()[j as int]);
                assert(corner_views(corners@)[j as int] == corner(all.drop_first()[j as int]));
                assert(corner_views(corners@) =~= all.drop_first().subrange(0, j + 1).map_values(
                    |w: Seq<u8>| corner(w),
                ));
            }
            j = j + 1;
        }
        proof {
            assert(all.drop_first().subrange(0, j as int) =~= all.drop_first());
        }
        Statement::Face(corners)
    } else if is_keyword(&first, 103u8, None) && ws.len() > 0 {
        let label = ws.remove(0);
        Statement::Group(label)
    } else {
        Statement::Ignored
    }
}

/// The triangles of a fan over a convex polygon of `n` corners: each joins
/// the first corner to two neighbouring others, as positions of the corners.
pub fn fan_triangulation(n: usize) -> (r: Vec<(usize, usize, usize)>)
    ensures
        r@.len() == if n >= 3 {
            n - 2
        } else {
            0
        },
        forall|k: int| 0 <= k < r@.len() ==> #[trigger] r@[k] == (0usize, (k + 1) as usize, (k + 2) as usize),
{
    let mut r: Vec<(usize, usize, usize)> = Vec::new();
    if n < 3 {
        return r;
    }
    let mut i: usize = 1;
    while i + 1 < n
        invariant
            1 <= i < n,
            r@.len() == i - 1,
            forall|k: int| 0 <= k < r@.len() ==> #[trigger] r@[k] == (0usize, (k + 1) as usize, (k + 2) as usize),
        decreases n - i,
    {
        r.push((0, i, i + 1));
        i = i + 1;
    }
    r
}

} // verus!
