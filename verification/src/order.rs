use vstd::prelude::*;

verus! {

/// The result of comparing two values: the first is smaller, both are equal, or the first is larger.
#[derive(Clone, Copy, Debug, PartialEq, Eq, Structural)]
pub enum Compared {
    Less,
    Equal,
    Greater,
}

impl Compared {
    /// The result of the comparison with its arguments swapped.
    pub open spec fn flip(self) -> Compared {
        match self {
            Compared::Less => Compared::Greater,
            Compared::Equal => Compared::Equal,
            Compared::Greater => Compared::Less,
        }
    }

    /// Lexicographic combination: `self` decides unless it is `Equal`.
    pub open spec fn and_next(self, next: Compared) -> Compared {
        match self {
            Compared::Equal => next,
            _ => self,
        }
    }
}

/// `c` is a strict total order: `Equal` exactly on equal values, antisymmetric, transitive.
pub open spec fn order_laws<T>(c: spec_fn(T, T) -> Compared) -> bool {
    &&& forall|a: T, b: T| #[trigger] c(a, b) == Compared::Equal <==> a == b
    &&& forall|a: T, b: T| #[trigger] c(a, b) == c(b, a).flip()
    &&& forall|a: T, b: T, d: T|
        #![trigger c(a, b), c(b, d)]
        c(a, b) == Compared::Less && c(b, d) == Compared::Less ==> c(a, d) == Compared::Less
}

/// Lexicographic order on sequences, by the element order `c`; a proper prefix is smaller.
pub open spec fn lex<T>(a: Seq<T>, b: Seq<T>, c: spec_fn(T, T) -> Compared) -> Compared
    decreases a.len(),
{
    if a.len() == 0 {
        if b.len() == 0 {
            Compared::Equal
        } else {
            Compared::Less
        }
    } else if b.len() == 0 {
        Compared::Greater
    } else {
        c(a[0], b[0]).and_next(lex(a.drop_first(), b.drop_first(), c))
    }
}

proof fn lemma_lex_equal<T>(a: Seq<T>, b: Seq<T>, c: spec_fn(T, T) -> Compared)
    requires
        order_laws(c),
    ensures
        (lex(a, b, c) == Compared::Equal) == (a == b),
    decreases a.len(),
{
    if a.len() == 0 || b.len() == 0 {
        if a.len() == 0 && b.len() == 0 {
            assert(a =~= b);
        }
    } else {
        lemma_lex_equal(a.drop_first(), b.drop_first(), c);
        if a[0] == b[0] && a.drop_first() == b.drop_first() {
            assert forall|i: int| 0 <= i < a.len() implies a[i] == b[i] by {
                if i > 0 {
                    assert(a[i] == a.drop_first()[i - 1]);
                    assert(b[i] == b.drop_first()[i - 1]);
                }
            }
            assert(a =~= b);
        }
        if a == b {
            assert(c(a[0], b[0]) == Compared::Equal);
        }
    }
}

proof fn lemma_lex_flip<T>(a: Seq<T>, b: Seq<T>, c: spec_fn(T, T) -> Compared)
    requires
        order_laws(c),
    ensures
        lex(a, b, c) == lex(b, a, c).flip(),
    decreases a.len(),
{
    if a.len() > 0 && b.len() > 0 {
        lemma_lex_flip(a.drop_first(), b.drop_first(), c);
        assert(c(a[0], b[0]) == c(b[0], a[0]).flip());
    }
}

proof fn lemma_lex_trans<T>(a: Seq<T>, b: Seq<T>, d: Seq<T>, c: spec_fn(T, T) -> Compared)
    requires
        order_laws(c),
        lex(a, b, c) == Compared::Less,
        lex(b, d, c) == Compared::Less,
    ensures
        lex(a, d, c) == Compared::Less,
    decreases a.len(),
{
    if a.len() > 0 {
        let x = c(a[0], b[0]);
        let y = c(b[0], d[0]);
        if x == Compared::Equal && y == Compared::Equal {
            lemma_lex_trans(a.drop_first(), b.drop_first(), d.drop_first(), c);
        }
        assert(c(a[0], d[0]) == c(d[0], a[0]).flip());
    }
}

/// The lexicographic order built from a strict total order is a strict total order.
pub proof fn lemma_lex_order_laws<T>(c: spec_fn(T, T) -> Compared)
    requires
        order_laws(c),
    ensures
        order_laws(|a: Seq<T>, b: Seq<T>| lex(a, b, c)),
{
    let l = |a: Seq<T>, b: Seq<T>| lex(a, b, c);
    assert forall|a: Seq<T>, b: Seq<T>| #[trigger] l(a, b) == Compared::Equal <==> a == b by {
        lemma_lex_equal(a, b, c);
    }
    assert forall|a: Seq<T>, b: Seq<T>| #[trigger] l(a, b) == l(b, a).flip() by {
        lemma_lex_flip(a, b, c);
    }
    assert forall|a: Seq<T>, b: Seq<T>, d: Seq<T>|
        #![trigger l(a, b), l(b, d)]
        l(a, b) == Compared::Less && l(b, d) == Compared::Less implies l(a, d) == Compared::Less by {
        lemma_lex_trans(a, b, d, c);
    }
}

/// One step of the lexicographic order: equal heads defer to the tails.
pub proof fn lemma_lex_step<T>(a: Seq<T>, b: Seq<T>, c: spec_fn(T, T) -> Compared, i: int)
    requires
        order_laws(c),
        0 <= i < a.len(),
        i < b.len(),
        a[i] == b[i],
    ensures
        lex(a.skip(i), b.skip(i), c) == lex(a.skip(i + 1), b.skip(i + 1), c),
{
    assert(a.skip(i).drop_first() =~= a.skip(i + 1));
    assert(b.skip(i).drop_first() =~= b.skip(i + 1));
    assert(c(a[i], b[i]) == Compared::Equal);
}

/// Order of characters by their code points.
pub open spec fn char_order(a: char, b: char) -> Compared {
    if a < b {
        Compared::Less
    } else if a == b {
        Compared::Equal
    } else {
        Compared::Greater
    }
}

/// The character order as a function value.
pub open spec fn by_char() -> spec_fn(char, char) -> Compared {
    |x: char, y: char| char_order(x, y)
}

/// Order of 16-bit numbers.
pub open spec fn u16_order(a: u16, b: u16) -> Compared {
    if a < b {
        Compared::Less
    } else if a == b {
        Compared::Equal
    } else {
        Compared::Greater
    }
}

/// Order of booleans: `false` before `true`.
pub open spec fn bool_order(a: bool, b: bool) -> Compared {
    if a == b {
        Compared::Equal
    } else if !a {
        Compared::Less
    } else {
        Compared::Greater
    }
}

/// Order of texts: lexicographic by code point, as `str` orders them.
pub open spec fn text_order(a: Seq<char>, b: Seq<char>) -> Compared {
    lex(a, b, by_char())
}

/// Order of optional texts: absent before present.
pub open spec fn opt_text_order(a: Option<Seq<char>>, b: Option<Seq<char>>) -> Compared {
    match (a, b) {
        (None, None) => Compared::Equal,
        (None, Some(_)) => Compared::Less,
        (Some(_), None) => Compared::Greater,
        (Some(x), Some(y)) => text_order(x, y),
    }
}

pub proof fn lemma_char_order_laws()
    ensures
        order_laws(by_char()),
{
}

/// Laws of the text order.
pub proof fn lemma_text_order_laws()
    ensures
        order_laws(|a: Seq<char>, b: Seq<char>| text_order(a, b)),
{
    lemma_char_order_laws();
    let c = by_char();
    lemma_lex_order_laws(c);
    let l = |a: Seq<char>, b: Seq<char>| lex(a, b, c);
    let t = |a: Seq<char>, b: Seq<char>| text_order(a, b);
    assert forall|a: Seq<char>, b: Seq<char>| #[trigger] t(a, b) == l(a, b) by {}
}

/// Compares two texts as `str` does.
pub fn compare_text(a: &str, b: &str) -> (r: Compared)
    ensures
        r == text_order(a@, b@),
{
    let x = crate::text::chars_of(a);
    let y = crate::text::chars_of(b);
    let ghost c = by_char();
    proof {
        lemma_char_order_laws();
        assert(x@.skip(0) =~= x@);
        assert(y@.skip(0) =~= y@);
    }
    let mut i: usize = 0;
    while i < x.len() && i < y.len()
        invariant
            c == by_char(),
            order_laws(c),
            i <= x.len(),
            i <= y.len(),
            text_order(a@, b@) == lex(x@.skip(i as int), y@.skip(i as int), c),
            x@ == a@,
            y@ == b@,
        decreases x.len() - i,
    {
        let p = x[i];
        let q = y[i];
        proof {
            assert(x@.skip(i as int)[0] == p);
            assert(y@.skip(i as int)[0] == q);
            assert(c(p, q) == char_order(p, q));
        }
        if p < q {
            return Compared::Less;
        } else if p > q {
            return Compared::Greater;
        }
        proof {
            lemma_lex_step(x@, y@, c, i as int);
        }
        i = i + 1;
    }
    if i < x.len() {
        Compared::Greater
    } else if i < y.len() {
        Compared::Less
    } else {
        Compared::Equal
    }
}

} // verus!
