use vstd::prelude::*;

verus! {

/// Failure to import a chart.
#[derive(Clone, Copy, Debug, PartialEq, Eq, Structural)]
pub enum BMSImportError {
    NumericFormatError,
    InvalidBase36Format,
    CouldntOpenFile,
    ErrorReadingFile,
}

/// Value of a base-36 digit (`0-9`, then `A-Z` or `a-z` for 10 to 35).
pub open spec fn digit36(c: char) -> Option<nat> {
    if '0' <= c && c <= '9' {
        Some((c as nat - '0' as nat) as nat)
    } else if 'A' <= c && c <= 'Z' {
        Some((c as nat - 'A' as nat + 10) as nat)
    } else if 'a' <= c && c <= 'z' {
        Some((c as nat - 'a' as nat + 10) as nat)
    } else {
        None
    }
}

pub open spec fn is_base36(s: Seq<char>) -> bool {
    forall|i: int| 0 <= i < s.len() ==> (#[trigger] digit36(s[i])) is Some
}

/// Value of a string of base-36 digits, most significant first.
pub open spec fn base36_value(s: Seq<char>) -> nat
    decreases s.len(),
{
    if s.len() == 0 {
        0
    } else {
        base36_value(s.drop_last()) * 36 + digit36(s.last())->0
    }
}

pub open spec fn pow36(n: nat) -> nat
    decreases n,
{
    if n == 0 {
        1
    } else {
        36 * pow36((n - 1) as nat)
    }
}

proof fn lemma_pow36_mono(a: nat, b: nat)
    requires
        a <= b,
    ensures
        pow36(a) <= pow36(b),
    decreases b,
{
    if a < b {
        lemma_pow36_mono(a, (b - 1) as nat);
    }
}

/// Reads a base-36 number of at most six digits (so that it fits a `u32`).
pub fn from_base36(numstr: &[char]) -> (r: Result<u32, ()>)
    requires
        numstr@.len() <= 6,
    ensures
        is_base36(numstr@) ==> (r matches Ok(v) && v as nat == base36_value(numstr@)),
        !is_base36(numstr@) ==> r is Err,
{
    proof {
        reveal_with_fuel(pow36, 7);
        assert(pow36(6) == 2176782336);
        lemma_pow36_mono(numstr@.len() as nat, 6);
    }
    let mut v: u32 = 0;
    let mut i: usize = 0;
    while i < numstr.len()
        invariant
            i <= numstr@.len() <= 6,
            pow36(numstr@.len() as nat) <= 2176782336,
            forall|j: int| 0 <= j < i ==> (#[trigger] digit36(numstr@[j])) is Some,
            v as nat == base36_value(numstr@.take(i as int)),
            (v as nat) < pow36(i as nat),
        decreases numstr.len() - i,
    {
        let c = numstr[i];
        proof {
            assert(numstr@.take(i + 1).drop_last() == numstr@.take(i as int));
            assert(numstr@.take(i + 1).last() == c);
            lemma_pow36_mono((i + 1) as nat, numstr@.len() as nat);
        }
        let d: u32;
        if c >= '0' && c <= '9' {
            d = (c as u32) - ('0' as u32);
        } else if c >= 'A' && c <= 'Z' {
            d = (c as u32) - ('A' as u32) + 10;
        } else if c >= 'a' && c <= 'z' {
            d = (c as u32) - ('a' as u32) + 10;
        } else {
            assert(digit36(numstr@[i as int]) is None);
            return Err(());
        }
        v = v * 36 + d;
        i += 1;
    }
    assert(numstr@.take(i as int) == numstr@);
    Ok(v)
}

/// The `p`-th two-character group of `s`.
pub open spec fn digit_pair(s: Seq<char>, p: int) -> Seq<char> {
    s.subrange(2 * p, 2 * p + 2)
}

/// The first `q` two-digit values of `s`.
pub open spec fn pushed_values(s: Seq<char>, q: nat) -> Seq<u32> {
    Seq::new(q, |p: int| base36_value(digit_pair(s, p)) as u32)
}

/// Reads `indices` as consecutive two-digit base-36 values (an odd last
/// character is ignored), appends them to `args` and counts them in
/// `args_cnt`. At the first malformed pair it stops with
/// `InvalidBase36Format`, keeping the values read before it.
pub fn push_indices_from_str_to_arglist(
    indices: &[char],
    args: &mut Vec<u32>,
    args_cnt: &mut usize,
) -> (r: Result<(), BMSImportError>)
    requires
        *old(args_cnt) + indices@.len() / 2 <= usize::MAX,
    ensures
        ({
            let q = final(args)@.len() - old(args)@.len();
            &&& 0 <= q <= indices@.len() / 2
            &&& final(args)@ == old(args)@ + pushed_values(indices@, q as nat)
            &&& *final(args_cnt) == *old(args_cnt) + q
            &&& forall|p: int| 0 <= p < q ==> is_base36(#[trigger] digit_pair(indices@, p))
            &&& r is Ok ==> q == indices@.len() / 2
            &&& r is Err ==> q < indices@.len() / 2 && !is_base36(digit_pair(indices@, q))
                && r == Err::<(), BMSImportError>(BMSImportError::InvalidBase36Format)
        }),
{
    let ghost a0 = args@;
    let ghost c0 = *args_cnt;
    let len = indices.len();
    let n = len / 2;
    let mut p: usize = 0;
    while p < n
        invariant
            len == indices@.len(),
            n == len / 2,
            p <= n,
            c0 + n <= usize::MAX,
            args@ == a0 + Seq::new(p as nat, |p: int| base36_value(digit_pair(indices@, p)) as u32),
            *args_cnt == c0 + p,
            forall|q: int| 0 <= q < p ==> is_base36(#[trigger] digit_pair(indices@, q)),
            old(args)@ == a0,
            *old(args_cnt) == c0,
        decreases n - p,
    {
        assert(p + p + 1 < len) by (nonlinear_arith)
            requires
                p < n,
                n == len / 2,
        ;
        let pair = vec![indices[p + p], indices[p + p + 1]];
        assert(pair@ == digit_pair(indices@, p as int));
        match from_base36(pair.as_slice()) {
            Ok(v) => {
                args.push(v);
                *args_cnt += 1;
                assert(args@ == a0 + Seq::new(
                    (p + 1) as nat,
                    |p: int| base36_value(digit_pair(indices@, p)) as u32,
                ));
            },
            Err(()) => {
                return Err(BMSImportError::InvalidBase36Format);
            },
        }
        p += 1;
    }
    Ok(())
}

/// Length of a resource table: one past the highest index, zero when empty.
pub open spec fn table_len(entries: Seq<(u32, String)>) -> nat
    decreases entries.len(),
{
    if entries.len() == 0 {
        0
    } else {
        let t = table_len(entries.drop_last());
        if entries.last().0 + 1 > t {
            (entries.last().0 + 1) as nat
        } else {
            t
        }
    }
}

/// Path of the last entry with index `i`, or the empty path.
pub open spec fn resource_at(entries: Seq<(u32, String)>, i: int) -> Seq<char>
    decreases entries.len(),
{
    if entries.len() == 0 {
        Seq::empty()
    } else if entries.last().0 == i {
        entries.last().1@
    } else {
        resource_at(entries.drop_last(), i)
    }
}

proof fn lemma_table_len_bound(entries: Seq<(u32, String)>)
    ensures
        forall|e: int| 0 <= e < entries.len() ==> #[trigger] entries[e].0 < table_len(entries),
    decreases entries.len(),
{
    if entries.len() > 0 {
        let p = entries.drop_last();
        lemma_table_len_bound(p);
        assert forall|e: int| 0 <= e < entries.len() implies #[trigger] entries[e].0 < table_len(
            entries,
        ) by {
            if e < p.len() {
                assert(entries[e] == p[e]);
            }
        }
    }
}

/// Builds the resource table: entry `i` holds the path of the last
/// definition with index `i`, or the empty string where there is none.
pub fn make_bms_resource_table(entries: &Vec<(u32, String)>) -> (r: Vec<String>)
    requires
        forall|e: int| 0 <= e < entries@.len() ==> (#[trigger] entries@[e].0 as int) < usize::MAX,
    ensures
        r@.len() == table_len(entries@),
        forall|i: int| 0 <= i < r@.len() ==> #[trigger] r@[i]@ == resource_at(entries@, i),
{
    proof {
        lemma_table_len_bound(entries@);
    }
    let mut len: usize = 0;
    let mut e: usize = 0;
    while e < entries.len()
        invariant
            e <= entries@.len(),
            forall|x: int| 0 <= x < entries@.len() ==> (#[trigger] entries@[x].0 as int) < usize::MAX,
            len == table_len(entries@.take(e as int)),
        decreases entries.len() - e,
    {
        assert(entries@.take(e + 1).drop_last() == entries@.take(e as int));
        assert(entries@.take(e + 1).last() == entries@[e as int]);
        let idx = entries[e].0 as usize;
        if idx + 1 > len {
            len = idx + 1;
        }
        e += 1;
    }
    assert(entries@.take(e as int) == entries@);
    let mut paths: Vec<String> = Vec::new();
    while paths.len() < len
        invariant
            paths@.len() <= len,
            forall|i: int| 0 <= i < paths@.len() ==> #[trigger] paths@[i]@ == Seq::<char>::empty(),
        decreases len - paths.len(),
    {
        paths.push(String::new());
    }
    let mut e: usize = 0;
    while e < entries.len()
        invariant
            e <= entries@.len(),
            len == table_len(entries@),
            paths@.len() == len,
            forall|x: int| 0 <= x < entries@.len() ==> #[trigger] entries@[x].0 < table_len(entries@),
            forall|i: int|
                0 <= i < paths@.len() ==> #[trigger] paths@[i]@ == resource_at(
                    entries@.take(e as int),
                    i,
                ),
        decreases entries.len() - e,
    {
        assert(entries@.take(e + 1).drop_last() == entries@.take(e as int));
        assert(entries@.take(e + 1).last() == entries@[e as int]);
        let idx = entries[e].0 as usize;
        let path = entries[e].1.clone();
        paths.set(idx, path);
        e += 1;
    }
    assert(entries@.take(e as int) == entries@);
    paths
}

} // verus!
