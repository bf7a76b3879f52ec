//! Choosing a free file name for a new or renamed note.
use vstd::prelude::*;
use vstd::relations::injective_on;
use vstd::set_lib::{lemma_int_range, lemma_len_subset, lemma_map_size, set_int_range};
use crate::text::{append_chars, chars_of, occurs_at_exec, starts_with, string_of};

verus! {

/// The digit for `d < 10`.
pub open spec fn digit_char(d: nat) -> char {
    seq!['0', '1', '2', '3', '4', '5', '6', '7', '8', '9'][d as int]
}

/// `n` written in decimal.
pub open spec fn decimal(n: nat) -> Seq<char>
    decreases n,
{
    if n < 10 {
        seq![digit_char(n)]
    } else {
        decimal(n / 10).push(digit_char(n % 10))
    }
}

/// Writes `n` in decimal.
pub fn decimal_chars(n: u64) -> (r: Vec<char>)
    ensures
        r@ == decimal(n as nat),
    decreases n,
{
    let digits = vec!['0', '1', '2', '3', '4', '5', '6', '7', '8', '9'];
    assert(digits@ =~= seq!['0', '1', '2', '3', '4', '5', '6', '7', '8', '9']);
    if n < 10 {
        let r = vec![digits[n as usize]];
        assert(r@ =~= decimal(n as nat));
        r
    } else {
        let mut r = decimal_chars(n / 10);
        r.push(digits[(n % 10) as usize]);
        r
    }
}

proof fn lemma_decimal_len(n: nat)
    ensures
        decimal(n).len() >= 1,
        n >= 10 ==> decimal(n).len() >= 2,
    decreases n,
{
    if n >= 10 {
        lemma_decimal_len(n / 10);
    }
}

/// Distinct numbers are written differently.
pub proof fn lemma_decimal_injective(a: nat, b: nat)
    requires
        decimal(a) == decimal(b),
    ensures
        a == b,
    decreases a,
{
    lemma_decimal_len(a);
    lemma_decimal_len(b);
    let ds = seq!['0', '1', '2', '3', '4', '5', '6', '7', '8', '9'];
    if a < 10 && b < 10 {
        assert(decimal(a)[0] == ds[a as int]);
        assert(decimal(b)[0] == ds[b as int]);
    } else if a >= 10 && b >= 10 {
        let da = decimal(a);
        let db = decimal(b);
        assert(da.last() == ds[(a % 10) as int]);
        assert(db.last() == ds[(b % 10) as int]);
        assert(decimal(a / 10) == da.drop_last());
        assert(decimal(b / 10) == db.drop_last());
        lemma_decimal_injective(a / 10, b / 10);
    } else {
        assert(decimal(a).len() != decimal(b).len()) by {
            if a >= 10 {
                lemma_decimal_len(a / 10);
            } else {
                lemma_decimal_len(b / 10);
            }
        }
    }
}

/// The tag of a name template that numbers the notes it makes.
pub open spec fn counter_tag() -> Seq<char> {
    seq!['{', 'c', 'o', 'u', 'n', 't', 'e', 'r', '}']
}

/// `s` with every occurrence of `p` replaced by `r`, scanning left to right.
pub open spec fn replaced(s: Seq<char>, p: Seq<char>, r: Seq<char>) -> Seq<char>
    decreases s.len(),
{
    if s.len() == 0 {
        s
    } else if p.len() > 0 && starts_with(s, p) {
        r + replaced(s.subrange(p.len() as int, s.len() as int), p, r)
    } else {
        seq![s[0]] + replaced(s.drop_first(), p, r)
    }
}

pub fn replaced_chars(v: &Vec<char>, p: &Vec<char>, r: &Vec<char>) -> (out: Vec<char>)
    requires
        p.len() > 0,
    ensures
        out@ == replaced(v@, p@, r@),
{
    let mut out: Vec<char> = Vec::new();
    let mut i: usize = 0;
    let n = v.len();
    assert(v@.subrange(0, n as int) =~= v@);
    assert(out@ + replaced(v@, p@, r@) =~= replaced(v@, p@, r@));
    while i < n
        invariant
            i <= n == v.len(),
            p.len() > 0,
            out@ + replaced(v@.subrange(i as int, n as int), p@, r@) == replaced(v@, p@, r@),
        decreases n - i,
    {
        let ghost sub = v@.subrange(i as int, n as int);
        if occurs_at_exec(v, p, i) {
            assert(sub.subrange(0, p.len() as int) =~= v@.subrange(i as int, i + p.len()));
            assert(sub.subrange(p.len() as int, sub.len() as int) =~= v@.subrange(
                i + p.len(),
                n as int,
            ));
            append_chars(&mut out, r);
            assert(out@ + replaced(v@.subrange(i + p.len(), n as int), p@, r@) =~= replaced(
                v@,
                p@,
                r@,
            ));
            i = i + p.len();
        } else {
            assert(!starts_with(sub, p@)) by {
                if p.len() <= sub.len() {
                    assert(sub.subrange(0, p.len() as int) =~= v@.subrange(i as int, i + p.len()));
                }
            }
            assert(sub.drop_first() =~= v@.subrange(i + 1, n as int));
            out.push(v[i]);
            assert(out@ + replaced(v@.subrange(i + 1, n as int), p@, r@) =~= replaced(
                v@,
                p@,
                r@,
            ));
            i = i + 1;
        }
    }
    assert(out@ =~= out@ + replaced(v@.subrange(n as int, n as int), p@, r@));
    out
}

/// How the names offered for a note are formed.
pub enum NameForm {
    /// `base`, then `base-1`, `base-2`, ...
    Suffixed(String),
    /// The template with its counter tag set to 1, then 2, ...
    Counter(String),
}

impl NameForm {
    /// Whether names are numbered through the counter tag.
    pub open spec fn counter(&self) -> bool {
        self is Counter
    }

    /// The base name or the template.
    pub open spec fn base(&self) -> Seq<char> {
        match self {
            NameForm::Suffixed(b) => b@,
            NameForm::Counter(t) => t@,
        }
    }
}

/// The `k`-th name offered, from 0: `base`, `base-1`, `base-2`, ... or,
/// with `counter`, `base` with its counter tag set to `k + 1`.
pub open spec fn candidate(counter: bool, base: Seq<char>, k: nat) -> Seq<char> {
    if counter {
        replaced(base, counter_tag(), decimal(k + 1))
    } else if k == 0 {
        base
    } else {
        base + seq!['-'] + decimal(k)
    }
}

fn candidate_exec(form: &NameForm, k: u64) -> (r: Vec<char>)
    requires
        k < u64::MAX,
    ensures
        r@ == candidate(form.counter(), form.base(), k as nat),
{
    match form {
        NameForm::Suffixed(b) => {
            let mut r = chars_of(b.as_str());
            if k > 0 {
                r.push('-');
                let d = decimal_chars(k);
                append_chars(&mut r, &d);
            }
            r
        },
        NameForm::Counter(t) => {
            let v = chars_of(t.as_str());
            let tag = vec!['{', 'c', 'o', 'u', 'n', 't', 'e', 'r', '}'];
            assert(tag@ =~= counter_tag());
            let d = decimal_chars(k + 1);
            replaced_chars(&v, &tag, &d)
        },
    }
}

/// Whether the name `c` is held by a file other than the note itself (`own`).
pub open spec fn name_taken(taken: Seq<Seq<char>>, own: Option<Seq<char>>, c: Seq<char>) -> bool {
    taken.contains(c) && own != Some(c)
}

/// The view of an optional string.
pub open spec fn own_view(own: Option<String>) -> Option<Seq<char>> {
    match own {
        Some(o) => Some(o@),
        None => None,
    }
}

/// The views of a list of strings.
pub open spec fn views(v: Seq<String>) -> Seq<Seq<char>> {
    v.map_values(|s: String| s@)
}

fn is_taken_exec(taken: &Vec<String>, own: &Option<String>, c: &Vec<char>) -> (r: bool)
    ensures
        r == name_taken(views(taken@), own_view(*own), c@),
{
    let cs = string_of(c);
    match own {
        Some(o) => {
            if *o == cs {
                return false;
            }
        },
        None => {},
    }
    let mut i: usize = 0;
    while i < taken.len()
        invariant
            i <= taken.len(),
            cs@ == c@,
            match own {
                Some(o) => o@ != c@,
                None => true,
            },
            forall|j: int| 0 <= j < i ==> taken@[j]@ != c@,
        decreases taken.len() - i,
    {
        if taken[i] == cs {
            assert(views(taken@).len() == taken.len());
            assert(views(taken@)[i as int] == c@);
            return true;
        }
        i = i + 1;
    }
    assert(!views(taken@).contains(c@)) by {
        if views(taken@).contains(c@) {
            let j = choose|j: int| 0 <= j < views(taken@).len() && views(taken@)[j] == c@;
            assert(taken@[j]@ == c@);
        }
    }
    false
}

/// Whether every name offered before the `k`-th is taken.
pub open spec fn taken_before(
    counter: bool,
    base: Seq<char>,
    taken: Seq<Seq<char>>,
    own: Option<Seq<char>>,
    k: nat,
) -> bool {
    forall|j: nat| j < k ==> name_taken(taken, own, #[trigger] candidate(counter, base, j))
}

/// Whether `r` is the first name offered that is free, at most `bound`
/// names in.
pub open spec fn first_free(
    counter: bool,
    base: Seq<char>,
    taken: Seq<Seq<char>>,
    own: Option<Seq<char>>,
    bound: nat,
    r: Seq<char>,
) -> bool {
    exists|k: nat|
        #![trigger candidate(counter, base, k)]
        k <= bound && r == candidate(counter, base, k) && !name_taken(taken, own, r)
            && taken_before(counter, base, taken, own, k)
}

/// The first name that `form` offers and that no file in `taken` holds,
/// but for the note itself (`own`), trying as many names as `taken` has
/// entries and one more; `None` when all of them are held.
pub fn pick_free_name(form: &NameForm, taken: &Vec<String>, own: &Option<String>) -> (r: Option<
    String,
>)
    requires
        taken.len() < usize::MAX,
    ensures
        ({
            let (c, b, t, o) = (form.counter(), form.base(), views(taken@), own_view(*own));
            match r {
                Some(name) => has_free_name(c, b, t, o) && name@ == free_name(c, b, t, o),
                None => !has_free_name(c, b, t, o),
            }
        }),
{
    let ghost (c, b, t, o) = (form.counter(), form.base(), views(taken@), own_view(*own));
    assert(t.len() == taken.len());
    let mut k: usize = 0;
    loop
        invariant
            k <= taken.len() < usize::MAX,
            (c, b, t, o) == (form.counter(), form.base(), views(taken@), own_view(*own)),
            t.len() == taken.len(),
            taken_before(c, b, t, o, k as nat),
        decreases taken.len() - k,
    {
        let name = candidate_exec(form, k as u64);
        if !is_taken_exec(taken, own, &name) {
            let r = string_of(&name);
            proof {
                assert(r@ == candidate(c, b, k as nat));
                assert(first_free(c, b, t, o, t.len(), r@));
                lemma_first_free_unique(c, b, t, o, t.len(), r@, free_name(c, b, t, o));
            }
            return Some(r);
        }
        assert(name_taken(t, o, candidate(c, b, k as nat)));
        if k == taken.len() {
            assert(!has_free_name(c, b, t, o)) by {
                if has_free_name(c, b, t, o) {
                    let r = choose|r: Seq<char>| first_free(c, b, t, o, t.len(), r);
                    let k2 = choose|k2: nat|
                        #![trigger candidate(c, b, k2)]
                        k2 <= t.len() && r == candidate(c, b, k2) && !name_taken(t, o, r)
                            && taken_before(c, b, t, o, k2);
                    assert(name_taken(t, o, candidate(c, b, k2)));
                }
            }
            return None;
        }
        k = k + 1;
    }
}

proof fn lemma_suffixed_injective(b: Seq<char>, k1: nat, k2: nat)
    requires
        candidate(false, b, k1) == candidate(false, b, k2),
    ensures
        k1 == k2,
{
    let c1 = candidate(false, b, k1);
    let c2 = candidate(false, b, k2);
    lemma_decimal_len(k1);
    lemma_decimal_len(k2);
    if k1 > 0 && k2 > 0 {
        assert(c1.subrange(b.len() + 1int, c1.len() as int) =~= decimal(k1));
        assert(c2.subrange(b.len() + 1int, c2.len() as int) =~= decimal(k2));
        lemma_decimal_injective(k1, k2);
    } else if k1 > 0 {
        assert(c1.len() > c2.len());
    } else if k2 > 0 {
        assert(c2.len() > c1.len());
    }
}

/// A name of the form `X`, `X-1`, `X-2`, ... is always found: among the
/// first `taken.len() + 1` names at least one is free, since they all differ.
pub proof fn lemma_suffixed_name_found(b: Seq<char>, taken: Seq<Seq<char>>, own: Option<Seq<char>>)
    ensures
        exists|k: nat|
            k <= taken.len() && !name_taken(taken, own, #[trigger] candidate(false, b, k)),
{
    if forall|k: nat| k <= taken.len() ==> name_taken(taken, own, #[trigger] candidate(false, b, k)) {
        let n = taken.len() as int;
        let dom = set_int_range(0, n + 1);
        let f = |k: int| candidate(false, b, k as nat);
        lemma_int_range(0, n + 1);
        assert(injective_on(f, dom)) by {
            assert forall|x: int, y: int| dom.contains(x) && dom.contains(y) && #[trigger] f(x)
                == #[trigger] f(y) implies x == y by {
                lemma_suffixed_injective(b, x as nat, y as nat);
            }
        }
        let img = dom.map(f);
        lemma_map_size(dom, img, f);
        assert(img.subset_of(taken.to_set())) by {
            assert forall|c: Seq<char>| img.contains(c) implies taken.to_set().contains(c) by {
                let k = choose|k: int| dom.contains(k) && f(k) == c;
                assert(name_taken(taken, own, candidate(false, b, k as nat)));
            }
        }
        taken.lemma_cardinality_of_set();
        lemma_len_subset(img, taken.to_set());
    }
}


/// There is one first free name at most.
pub proof fn lemma_first_free_unique(
    counter: bool,
    base: Seq<char>,
    taken: Seq<Seq<char>>,
    own: Option<Seq<char>>,
    bound: nat,
    r1: Seq<char>,
    r2: Seq<char>,
)
    requires
        first_free(counter, base, taken, own, bound, r1),
        first_free(counter, base, taken, own, bound, r2),
    ensures
        r1 == r2,
{
    let k1 = choose|k: nat|
        #![trigger candidate(counter, base, k)]
        k <= bound && r1 == candidate(counter, base, k) && !name_taken(taken, own, r1)
            && taken_before(counter, base, taken, own, k);
    let k2 = choose|k: nat|
        #![trigger candidate(counter, base, k)]
        k <= bound && r2 == candidate(counter, base, k) && !name_taken(taken, own, r2)
            && taken_before(counter, base, taken, own, k);
    if k1 < k2 {
        assert(name_taken(taken, own, candidate(counter, base, k1)));
    }
    if k2 < k1 {
        assert(name_taken(taken, own, candidate(counter, base, k2)));
    }
}

/// The first free name that the form offers within `taken.len() + 1` tries.
pub open spec fn free_name(
    counter: bool,
    base: Seq<char>,
    taken: Seq<Seq<char>>,
    own: Option<Seq<char>>,
) -> Seq<char> {
    choose|r: Seq<char>| first_free(counter, base, taken, own, taken.len(), r)
}

/// Whether the form offers a free name within `taken.len() + 1` tries.
pub open spec fn has_free_name(
    counter: bool,
    base: Seq<char>,
    taken: Seq<Seq<char>>,
    own: Option<Seq<char>>,
) -> bool {
    exists|r: Seq<char>| first_free(counter, base, taken, own, taken.len(), r)
}

proof fn lemma_least_free(b: Seq<char>, taken: Seq<Seq<char>>, own: Option<Seq<char>>, j: nat)
    requires
        j <= taken.len(),
        taken_before(false, b, taken, own, j),
        exists|k: nat|
            j <= k <= taken.len() && !name_taken(taken, own, #[trigger] candidate(false, b, k)),
    ensures
        has_free_name(false, b, taken, own),
    decreases taken.len() - j,
{
    if !name_taken(taken, own, candidate(false, b, j)) {
        assert(first_free(false, b, taken, own, taken.len(), candidate(false, b, j)));
    } else {
        let k = choose|k: nat|
            j <= k <= taken.len() && !name_taken(taken, own, #[trigger] candidate(false, b, k));
        assert(k != j);
        assert(taken_before(false, b, taken, own, j + 1));
        lemma_least_free(b, taken, own, j + 1);
    }
}

/// A name of the form `X`, `X-1`, ... is always there to be taken.
pub proof fn lemma_suffixed_has_free_name(
    b: Seq<char>,
    taken: Seq<Seq<char>>,
    own: Option<Seq<char>>,
)
    ensures
        has_free_name(false, b, taken, own),
        first_free(false, b, taken, own, taken.len(), free_name(false, b, taken, own)),
{
    lemma_suffixed_name_found(b, taken, own);
    lemma_least_free(b, taken, own, 0);
}

/// Notes made one after the other under the same name `X` get `X`, then `X-1`.
pub proof fn lemma_same_name_in_sequence(b: Seq<char>)
    ensures
        free_name(false, b, Seq::empty(), None) == b,
        free_name(false, b, seq![b], None) == b + seq!['-'] + decimal(1),
{
    let e = Seq::<Seq<char>>::empty();
    lemma_suffixed_has_free_name(b, e, None);
    assert(first_free(false, b, e, None, 0, b));
    lemma_first_free_unique(false, b, e, None, 0, b, free_name(false, b, e, None));
    let t = seq![b];
    lemma_suffixed_has_free_name(b, t, None);
    let c1 = b + seq!['-'] + decimal(1);
    assert(t.contains(b)) by {
        assert(t[0] == b);
    }
    assert(!t.contains(c1)) by {
        if t.contains(c1) {
            let i = choose|i: int| 0 <= i < t.len() && t[i] == c1;
            assert(c1.len() > b.len());
        }
    }
    assert(taken_before(false, b, t, None, 1)) by {
        assert forall|j: nat| j < 1 implies name_taken(
            t,
            None,
            #[trigger] candidate(false, b, j),
        ) by {
            assert(j == 0);
        }
    }
    assert(first_free(false, b, t, None, 1, c1));
    lemma_first_free_unique(false, b, t, None, 1, c1, free_name(false, b, t, None));
}

} // verus!
