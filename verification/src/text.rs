//! Small operations on text: splitting at a separator, reading a decimal
//! index, finding a character, ordering and sorting names.
use vstd::prelude::*;
use vstd::string::*;

verus! {

/// The pieces of `s` between occurrences of `sep`, read left to right: a
/// separator opens a new piece, any other character extends the last one.
/// There is always at least one piece; `""` splits into one empty piece.
pub open spec fn split_on(s: Seq<char>, sep: char) -> Seq<Seq<char>>
    decreases s.len(),
{
    if s.len() == 0 {
        seq![Seq::empty()]
    } else {
        let before = split_on(s.drop_last(), sep);
        if s.last() == sep {
            before.push(Seq::empty())
        } else {
            before.update(before.len() - 1, before.last().push(s.last()))
        }
    }
}

/// The views of a vector of strings.
pub open spec fn views(v: Seq<String>) -> Seq<Seq<char>> {
    Seq::new(v.len(), |i: int| v[i]@)
}

/// Splits `s` at every `sep`.
pub fn split(s: &str, sep: char) -> (pieces: Vec<String>)
    ensures
        views(pieces@) == split_on(s@, sep),
        pieces.len() >= 1,
{
    let n = s.unicode_len();
    let mut pieces: Vec<String> = Vec::new();
    let mut start: usize = 0;
    let mut i: usize = 0;
    assert(s@.take(0) =~= Seq::<char>::empty());
    assert(views(pieces@).push(s@.subrange(0, 0)) =~= split_on(s@.take(0), sep));
    while i < n
        invariant
            n == s@.len(),
            start <= i <= n,
            views(pieces@).push(s@.subrange(start as int, i as int)) == split_on(
                s@.take(i as int),
                sep,
            ),
        decreases n - i,
    {
        let c = s.get_char(i);
        proof {
            let next = s@.take(i + 1);
            assert(next.drop_last() =~= s@.take(i as int));
            assert(next.last() == c);
        }
        if c == sep {
            let piece = s.substring_char(start, i).to_owned();
            let ghost before = views(pieces@);
            pieces.push(piece);
            start = i + 1;
            proof {
                assert(views(pieces@) =~= before.push(piece@));
                assert(s@.subrange(start as int, i + 1) =~= Seq::<char>::empty());
            }
        } else {
            proof {
                assert(s@.subrange(start as int, i + 1) =~= s@.subrange(start as int, i as int).push(
                    c,
                ));
                let before = split_on(s@.take(i as int), sep);
                assert(before.update(before.len() - 1, before.last().push(c)) =~= views(
                    pieces@,
                ).push(s@.subrange(start as int, i + 1)));
            }
        }
        i = i + 1;
    }
    let piece = s.substring_char(start, n).to_owned();
    let ghost before = views(pieces@);
    pieces.push(piece);
    proof {
        assert(s@.take(n as int) =~= s@);
        assert(views(pieces@) =~= before.push(piece@));
    }
    pieces
}

/// The value of a decimal digit, if `c` is one.
pub open spec fn digit_of(c: char) -> Option<nat> {
    if '0' <= c <= '9' {
        Some((c as nat - '0' as nat) as nat)
    } else {
        None
    }
}

/// Every character of `s` is a decimal digit.
pub open spec fn all_digits(s: Seq<char>) -> bool {
    forall|i: int| 0 <= i < s.len() ==> digit_of(#[trigger] s[i]) is Some
}

/// The number that a run of decimal digits writes.
pub open spec fn digits_value(s: Seq<char>) -> nat
    decreases s.len(),
{
    if s.len() == 0 {
        0
    } else {
        digits_value(s.drop_last()) * 10 + digit_of(s.last()).unwrap_or(0)
    }
}

/// The index that `s` writes: an optional `+`, then one or more decimal
/// digits. Anything else writes no index.
pub open spec fn index_of_text(s: Seq<char>) -> Option<nat> {
    let digits = if s.len() > 0 && s[0] == '+' {
        s.drop_first()
    } else {
        s
    };
    if digits.len() > 0 && all_digits(digits) {
        Some(digits_value(digits))
    } else {
        None
    }
}

/// Appending digits never lowers the value.
pub proof fn lemma_digits_value_grows(s: Seq<char>, k: int)
    requires
        0 <= k <= s.len(),
    ensures
        digits_value(s.take(k)) <= digits_value(s),
    decreases s.len() - k,
{
    if k < s.len() {
        lemma_digits_value_grows(s, k + 1);
        assert(s.take(k + 1).drop_last() =~= s.take(k));
    } else {
        assert(s.take(k) =~= s);
    }
}

/// Reads `s` as an index. `None` where `s` writes no index, and where the
/// index it writes does not fit in `usize`.
pub fn parse_index(s: &str) -> (r: Option<usize>)
    ensures
        match r {
            Some(i) => index_of_text(s@) == Some(i as nat),
            None => index_of_text(s@) matches Some(i) ==> i > usize::MAX,
        },
{
    let n = s.unicode_len();
    let first: usize = if n > 0 && s.get_char(0) == '+' {
        1
    } else {
        0
    };
    if first == n {
        return None;
    }
    let ghost digits = s@.subrange(first as int, n as int);
    proof {
        if first == 1 {
            assert(digits =~= s@.drop_first());
        } else {
            assert(digits =~= s@);
        }
    }
    let mut value: usize = 0;
    let mut i: usize = first;
    while i < n
        invariant
            n == s@.len(),
            first <= i <= n,
            digits == s@.subrange(first as int, n as int),
            index_of_text(s@) == if all_digits(digits) {
                Some(digits_value(digits))
            } else {
                None
            },
            all_digits(digits.take(i - first)),
            value == digits_value(digits.take(i - first)),
        decreases n - i,
    {
        let c = s.get_char(i);
        proof {
            assert(digits[i - first] == c);
            assert(digits.take(i - first + 1).drop_last() =~= digits.take(i - first));
            assert(digits.take(i - first + 1).last() == c);
        }
        if c < '0' || c > '9' {
            assert(digit_of(digits[i - first]) is None);
            return None;
        }
        let d: usize = (c as u32 - '0' as u32) as usize;
        proof {
            lemma_digits_value_grows(digits, i - first + 1);
        }
        if value > (usize::MAX - d) / 10 {
            assert(digits_value(digits.take(i - first + 1)) > usize::MAX);
            proof {
                // What follows can only extend the digits read so far, or
                // hold something that is no digit.
                if all_digits(digits) {
                    assert(digits_value(digits) > usize::MAX);
                }
            }
            return None;
        }
        value = value * 10 + d;
        proof {
            let next = digits.take(i - first + 1);
            assert forall|k: int| 0 <= k < next.len() implies digit_of(#[trigger] next[k]) is Some by {
                if k < i - first {
                    assert(digits.take(i - first)[k] == next[k]);
                }
            }
        }
        i = i + 1;
    }
    proof {
        assert(digits.take(n - first) =~= digits);
    }
    Some(value)
}

/// `a` comes before `b` in the order of strings: at the first position where
/// they differ `a` has the smaller character, or `a` ends there and `b` goes on.
pub open spec fn lex_lt(a: Seq<char>, b: Seq<char>) -> bool
    decreases a.len(),
{
    if b.len() == 0 {
        false
    } else if a.len() == 0 {
        true
    } else if a[0] != b[0] {
        a[0] < b[0]
    } else {
        lex_lt(a.drop_first(), b.drop_first())
    }
}

/// Nothing comes before itself.
pub proof fn lemma_lex_irreflexive(a: Seq<char>)
    ensures
        !lex_lt(a, a),
    decreases a.len(),
{
    if a.len() > 0 {
        lemma_lex_irreflexive(a.drop_first());
    }
}

/// The order is transitive.
pub proof fn lemma_lex_transitive(a: Seq<char>, b: Seq<char>, c: Seq<char>)
    requires
        lex_lt(a, b),
        lex_lt(b, c),
    ensures
        lex_lt(a, c),
    decreases a.len(),
{
    if a.len() > 0 && a[0] == b[0] && b[0] == c[0] {
        lemma_lex_transitive(a.drop_first(), b.drop_first(), c.drop_first());
    }
}

/// Of two different strings one comes before the other.
pub proof fn lemma_lex_total(a: Seq<char>, b: Seq<char>)
    ensures
        lex_lt(a, b) || lex_lt(b, a) || a == b,
    decreases a.len(),
{
    if a.len() > 0 && b.len() > 0 && a[0] == b[0] {
        lemma_lex_total(a.drop_first(), b.drop_first());
        if a.drop_first() == b.drop_first() {
            assert(a =~= seq![a[0]] + a.drop_first());
            assert(b =~= seq![b[0]] + b.drop_first());
        }
    } else if a.len() == 0 && b.len() == 0 {
        assert(a =~= b);
    }
}

/// Whether `a` comes before `b` in the order of strings.
pub fn str_lt(a: &str, b: &str) -> (r: bool)
    ensures
        r == lex_lt(a@, b@),
{
    let n = a.unicode_len();
    let m = b.unicode_len();
    let mut i: usize = 0;
    assert(a@.skip(0) =~= a@ && b@.skip(0) =~= b@);
    while i < n && i < m
        invariant
            n == a@.len(),
            m == b@.len(),
            i <= n,
            i <= m,
            lex_lt(a@, b@) == lex_lt(a@.skip(i as int), b@.skip(i as int)),
        decreases n - i,
    {
        let x = a.get_char(i);
        let y = b.get_char(i);
        proof {
            assert(a@.skip(i as int)[0] == x && b@.skip(i as int)[0] == y);
            assert(a@.skip(i as int).drop_first() =~= a@.skip(i + 1));
            assert(b@.skip(i as int).drop_first() =~= b@.skip(i + 1));
        }
        if x != y {
            return x < y;
        }
        i = i + 1;
    }
    i < m
}

/// `names` without every occurrence of `name`, the others in their order.
pub open spec fn without(names: Seq<Seq<char>>, name: Seq<char>) -> Seq<Seq<char>>
    decreases names.len(),
{
    if names.len() == 0 {
        Seq::empty()
    } else if names.last() == name {
        without(names.drop_last(), name)
    } else {
        without(names.drop_last(), name).push(names.last())
    }
}

/// `without` holds exactly the other names.
pub proof fn lemma_without_contains(names: Seq<Seq<char>>, name: Seq<char>, x: Seq<char>)
    ensures
        without(names, name).contains(x) <==> names.contains(x) && x != name,
    decreases names.len(),
{
    if names.len() > 0 {
        let init = names.drop_last();
        lemma_without_contains(init, name, x);
        let w = without(init, name);
        if names.contains(x) {
            let i = choose|i: int| 0 <= i < names.len() && names[i] == x;
            if i < names.len() - 1 {
                assert(init[i] == x);
            }
        }
        if init.contains(x) {
            let i = choose|i: int| 0 <= i < init.len() && init[i] == x;
            assert(names[i] == x);
        }
        if names.last() != name {
            let r = w.push(names.last());
            assert(r[r.len() - 1] == names.last());
            if w.contains(x) {
                let i = choose|i: int| 0 <= i < w.len() && w[i] == x;
                assert(r[i] == x);
            }
            if r.contains(x) {
                let i = choose|i: int| 0 <= i < r.len() && r[i] == x;
                if i < w.len() {
                    assert(w[i] == x);
                } else {
                    assert(names[names.len() - 1] == x);
                }
            }
        }
    }
}

/// Where `name` does not occur, nothing is taken out.
pub proof fn lemma_without_absent(names: Seq<Seq<char>>, name: Seq<char>)
    requires
        !names.contains(name),
    ensures
        without(names, name) == names,
    decreases names.len(),
{
    if names.len() > 0 {
        let init = names.drop_last();
        assert(names[names.len() - 1] != name);
        assert forall|i: int| 0 <= i < init.len() implies init[i] != name by {
            assert(names[i] == init[i]);
        }
        lemma_without_absent(init, name);
        assert(init.push(names.last()) =~= names);
    } else {
        assert(names =~= Seq::empty());
    }
}

/// The names of `names` that are not `name`, in their order.
pub fn remove_all(names: &Vec<String>, name: &String) -> (rest: Vec<String>)
    ensures
        views(rest@) == without(views(names@), name@),
{
    let mut rest: Vec<String> = Vec::new();
    let mut i: usize = 0;
    assert(views(names@).take(0) =~= Seq::empty());
    assert(views(rest@) =~= Seq::empty());
    while i < names.len()
        invariant
            i <= names.len(),
            views(rest@) == without(views(names@).take(i as int), name@),
        decreases names.len() - i,
    {
        proof {
            let next = views(names@).take(i + 1);
            assert(next.drop_last() =~= views(names@).take(i as int));
            assert(next.last() == names[i as int]@);
        }
        if names[i] != *name {
            let ghost before = views(rest@);
            rest.push(names[i].clone());
            assert(views(rest@) =~= before.push(names[i as int]@));
        }
        i = i + 1;
    }
    assert(views(names@).take(names.len() as int) =~= views(names@));
    rest
}

/// Whether two strings hold the same text.
pub fn str_eq(a: &str, b: &str) -> (r: bool)
    ensures
        r == (a@ == b@),
{
    a.to_owned() == b.to_owned()
}

/// Each name comes before the next in the order of strings.
pub open spec fn ascending(names: Seq<Seq<char>>) -> bool {
    forall|i: int, j: int| 0 <= i < j < names.len() ==> lex_lt(#[trigger] names[i], #[trigger] names[j])
}

/// The given names in ascending order. The names must differ from each other.
pub fn sort_names(names: &Vec<String>) -> (sorted: Vec<String>)
    requires
        views(names@).no_duplicates(),
    ensures
        ascending(views(sorted@)),
        sorted.len() == names.len(),
        forall|x: Seq<char>| views(sorted@).contains(x) <==> views(names@).contains(x),
{
    let mut sorted: Vec<String> = Vec::new();
    let mut i: usize = 0;
    while i < names.len()
        invariant
            i <= names.len(),
            sorted.len() == i,
            views(names@).no_duplicates(),
            ascending(views(sorted@)),
            forall|x: Seq<char>|
                views(sorted@).contains(x) <==> views(names@).take(i as int).contains(x),
        decreases names.len() - i,
    {
        let ghost done = views(sorted@);
        let ghost x = names[i as int]@;
        proof {
            // The next name is not among those placed so far.
            if done.contains(x) {
                let k = choose|k: int|
                    0 <= k < i && views(names@).take(i as int)[k] == x;
                assert(views(names@)[k] == views(names@)[i as int]);
            }
        }
        let mut p: usize = 0;
        while p < sorted.len() && str_lt(sorted[p].as_str(), names[i].as_str())
            invariant
                p <= sorted.len(),
                i < names.len(),
                x == names[i as int]@,
                forall|k: int| 0 <= k < p ==> lex_lt(#[trigger] views(sorted@)[k], x),
            decreases sorted.len() - p,
        {
            p = p + 1;
        }
        sorted.insert(p, names[i].clone());
        proof {
            let now = views(sorted@);
            assert(now =~= done.insert(p as int, x));
            assert forall|a: int, b: int| 0 <= a < b < now.len() implies lex_lt(
                #[trigger] now[a],
                #[trigger] now[b],
            ) by {
                let a0 = if a < p {
                    a
                } else {
                    a - 1
                };
                let b0 = if b < p {
                    b
                } else {
                    b - 1
                };
                if a == p {
                    // x against what stands after it.
                    assert(now[b] == done[b0]);
                    assert(done.contains(done[p as int]));
                    lemma_lex_total(done[p as int], x);
                    if b0 > p {
                        assert(lex_lt(done[p as int], done[b0]));
                        lemma_lex_transitive(x, done[p as int], done[b0]);
                    }
                } else if b == p {
                    assert(now[a] == done[a0]);
                } else {
                    assert(now[a] == done[a0] && now[b] == done[b0]);
                }
            }
            let next = views(names@).take(i + 1);
            assert(next.drop_last() =~= views(names@).take(i as int));
            assert forall|y: Seq<char>| now.contains(y) <==> next.contains(y) by {
                if now.contains(y) {
                    let k = choose|k: int| 0 <= k < now.len() && now[k] == y;
                    if k == p {
                        assert(next[i as int] == y);
                    } else {
                        let k0 = if k < p {
                            k
                        } else {
                            k - 1
                        };
                        assert(done[k0] == y);
                        assert(done.contains(y));
                        let j = choose|j: int|
                            0 <= j < i && views(names@).take(i as int)[j] == y;
                        assert(next[j] == y);
                    }
                }
                if next.contains(y) {
                    let j = choose|j: int| 0 <= j < next.len() && next[j] == y;
                    if j == i {
                        assert(now[p as int] == y);
                    } else {
                        assert(views(names@).take(i as int)[j] == y);
                        assert(done.contains(y));
                        let k = choose|k: int| 0 <= k < done.len() && done[k] == y;
                        let k1 = if k < p {
                            k
                        } else {
                            k + 1
                        };
                        assert(now[k1] == y);
                    }
                }
            }
        }
        i = i + 1;
    }
    assert(views(names@).take(names.len() as int) =~= views(names@));
    sorted
}

/// The first position at which `c` stands in `s`.
pub open spec fn position_of(s: Seq<char>, c: char) -> Option<int>
    decreases s.len(),
{
    if s.len() == 0 {
        None
    } else if s[0] == c {
        Some(0)
    } else {
        match position_of(s.drop_first(), c) {
            Some(i) => Some(i + 1),
            None => None,
        }
    }
}

/// `position_of` is the first position of `c`, and `None` exactly where `c`
/// does not occur.
pub proof fn lemma_position_of(s: Seq<char>, c: char)
    ensures
        match position_of(s, c) {
            Some(i) => 0 <= i < s.len() && s[i] == c && forall|k: int| 0 <= k < i ==> s[k] != c,
            None => forall|k: int| 0 <= k < s.len() ==> s[k] != c,
        },
    decreases s.len(),
{
    if s.len() > 0 && s[0] != c {
        let rest = s.drop_first();
        lemma_position_of(rest, c);
        match position_of(rest, c) {
            Some(i) => {
                assert forall|k: int| 0 <= k < i + 1 implies s[k] != c by {
                    if k > 0 {
                        assert(rest[k - 1] == s[k]);
                    }
                }
            },
            None => {
                assert forall|k: int| 0 <= k < s.len() implies s[k] != c by {
                    if k > 0 {
                        assert(rest[k - 1] == s[k]);
                    }
                }
            },
        }
    }
}

/// The first position at which `c` stands in `s`.
pub fn find_char(s: &str, c: char) -> (r: Option<usize>)
    ensures
        match r {
            Some(i) => position_of(s@, c) == Some(i as int),
            None => position_of(s@, c) is None,
        },
{
    let n = s.unicode_len();
    let mut i: usize = 0;
    proof {
        lemma_position_of(s@, c);
    }
    while i < n
        invariant
            n == s@.len(),
            i <= n,
            forall|k: int| 0 <= k < i ==> s@[k] != c,
        decreases n - i,
    {
        if s.get_char(i) == c {
            proof {
                lemma_position_of(s@, c);
            }
            return Some(i);
        }
        i = i + 1;
    }
    None
}

/// `s` without the run of `c` at its end.
pub open spec fn trimmed_end(s: Seq<char>, c: char) -> Seq<char>
    decreases s.len(),
{
    if s.len() > 0 && s.last() == c {
        trimmed_end(s.drop_last(), c)
    } else {
        s
    }
}

/// Cuts the run of `c` off the end of `s`.
pub fn trim_end(s: &str, c: char) -> (r: &str)
    ensures
        r@ == trimmed_end(s@, c),
{
    let mut end = s.unicode_len();
    assert(s@.take(end as int) =~= s@);
    while end > 0 && s.get_char(end - 1) == c
        invariant
            end <= s@.len(),
            trimmed_end(s@, c) == trimmed_end(s@.take(end as int), c),
        decreases end,
    {
        assert(s@.take(end as int).drop_last() =~= s@.take(end - 1));
        end = end - 1;
    }
    s.substring_char(0, end)
}

} // verus!
