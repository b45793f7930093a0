//! Benchmark results of one scenario: the measured time of each library,
//! the fastest library, and the two times that the speedup compares.

use vstd::prelude::*;

use crate::text::{lex_less, text_less};

verus! {

/// One library's mean time in one scenario.
pub struct Measurement {
    /// Name of the library (a column of the report).
    pub library: String,
    /// Bit pattern of the mean time in nanoseconds, an `f64`.
    pub nanos_bits: u64,
    /// The mean time as it is shown in a cell of the report.
    pub time_text: String,
}

/// One scenario (a row of the report) and the libraries measured in it.
pub struct Row {
    /// Human-readable description of the scenario.
    pub description: String,
    /// The measured libraries, in ascending order of their names in a well-formed row.
    pub measurements: Vec<Measurement>,
    /// How many times faster the fastest library is than the next-fastest one,
    /// rendered with two decimals; in a well-formed row, given exactly when two or more
    /// libraries were measured.
    pub speedup_text: Option<String>,
}

/// Key of the `f64` with bit pattern `bits` in the total order of `f64::total_cmp`:
/// values with the sign bit set come first, larger magnitudes before smaller ones,
/// then values without it, smaller magnitudes before larger ones.
pub open spec fn time_key(bits: u64) -> int {
    if bits < 0x8000_0000_0000_0000 {
        bits + 0x8000_0000_0000_0000
    } else {
        u64::MAX - bits
    }
}

/// The order keys of the measured times.
pub open spec fn keys_of(measurements: Seq<Measurement>) -> Seq<int> {
    measurements.map_values(|m: Measurement| time_key(m.nanos_bits))
}

/// Position `i` holds the smallest key, and no position before it holds a key as small.
pub open spec fn is_first_minimum(keys: Seq<int>, i: int) -> bool {
    &&& 0 <= i < keys.len()
    &&& forall|k: int| 0 <= k < keys.len() ==> keys[i] <= #[trigger] keys[k]
    &&& forall|k: int| 0 <= k < i ==> keys[i] < #[trigger] keys[k]
}

/// Position `j` comes second when the keys are sorted stably and position `i` comes first:
/// the smallest key apart from position `i`, the first position that holds it.
pub open spec fn is_runner_up(keys: Seq<int>, i: int, j: int) -> bool {
    &&& 0 <= j < keys.len()
    &&& j != i
    &&& forall|k: int| 0 <= k < keys.len() && k != i ==> keys[j] <= #[trigger] keys[k]
    &&& forall|k: int| 0 <= k < j && k != i ==> keys[j] < #[trigger] keys[k]
}

/// There is at most one first minimum.
pub proof fn lemma_first_minimum_unique(keys: Seq<int>, i: int, j: int)
    requires
        is_first_minimum(keys, i),
        is_first_minimum(keys, j),
    ensures
        i == j,
{
    if i < j {
        assert(keys[j] < keys[i]);
    } else if j < i {
        assert(keys[i] < keys[j]);
    }
}

/// There is at most one runner-up.
pub proof fn lemma_runner_up_unique(keys: Seq<int>, i: int, j: int, j2: int)
    requires
        is_runner_up(keys, i, j),
        is_runner_up(keys, i, j2),
    ensures
        j == j2,
{
    if j < j2 {
        assert(keys[j2] < keys[j]);
    } else if j2 < j {
        assert(keys[j] < keys[j2]);
    }
}

/// Distinct bit patterns have distinct keys, so the key order is a total order of the times.
pub proof fn lemma_time_key_injective(a: u64, b: u64)
    requires
        time_key(a) == time_key(b),
    ensures
        a == b,
{
}

/// Keys order times as `f64::total_cmp` does: every time with the sign bit set comes
/// before every time without it; without the sign bit a larger bit pattern is a larger
/// time (for non-negative floats the bit order is the numeric order), and with it a larger
/// bit pattern is a smaller time.
pub proof fn lemma_time_key_order(a: u64, b: u64)
    ensures
        a < 0x8000_0000_0000_0000 && b < 0x8000_0000_0000_0000 ==> (time_key(a) < time_key(b)
            <==> a < b),
        a >= 0x8000_0000_0000_0000 && b >= 0x8000_0000_0000_0000 ==> (time_key(a) < time_key(b)
            <==> b < a),
        a >= 0x8000_0000_0000_0000 && b < 0x8000_0000_0000_0000 ==> time_key(a) < time_key(b),
{
}

/// The fastest time is no larger than the runner-up's, which is no larger than any
/// other time of the row: the speedup divides the runner-up's time by the fastest.
pub proof fn lemma_speedup_operands_ordered(keys: Seq<int>, i: int, j: int)
    requires
        is_first_minimum(keys, i),
        is_runner_up(keys, i, j),
    ensures
        keys[i] <= keys[j],
        forall|k: int| 0 <= k < keys.len() && k != i && k != j ==> keys[j] <= #[trigger] keys[k],
{
}

/// The key of a time, as `time_key` defines it.
pub fn total_order_key(bits: u64) -> (key: u64)
    ensures
        key as int == time_key(bits),
{
    if bits < 0x8000_0000_0000_0000 {
        bits + 0x8000_0000_0000_0000
    } else {
        u64::MAX - bits
    }
}

/// Position of the first entry whose key is the smallest; `None` when there is none.
fn first_minimum(keys: &Vec<u64>) -> (found: Option<usize>)
    ensures
        found is None <==> keys@.len() == 0,
        found matches Some(i) ==> is_first_minimum(keys@.map_values(|k: u64| k as int), i as int),
{
    let ghost ks = keys@.map_values(|k: u64| k as int);
    if keys.len() == 0 {
        return None;
    }
    let mut best: usize = 0;
    let mut k: usize = 1;
    while k < keys.len()
        invariant
            ks == keys@.map_values(|k: u64| k as int),
            1 <= k <= keys.len(),
            best < k,
            forall|m: int| 0 <= m < k ==> ks[best as int] <= #[trigger] ks[m],
            forall|m: int| 0 <= m < best ==> ks[best as int] < #[trigger] ks[m],
        decreases keys.len() - k,
    {
        if keys[k] < keys[best] {
            best = k;
        }
        k = k + 1;
    }
    Some(best)
}

/// Position of the runner-up after position `first`; `None` when there is no other entry.
fn runner_up(keys: &Vec<u64>, first: usize) -> (found: Option<usize>)
    requires
        first < keys@.len(),
    ensures
        found is None <==> keys@.len() < 2,
        found matches Some(j) ==> is_runner_up(
            keys@.map_values(|k: u64| k as int),
            first as int,
            j as int,
        ),
{
    let ghost ks = keys@.map_values(|k: u64| k as int);
    let mut best: Option<usize> = None;
    let mut k: usize = 0;
    while k < keys.len()
        invariant
            ks == keys@.map_values(|k: u64| k as int),
            first < keys@.len(),
            k <= keys.len(),
            best is None <==> (k == 0 || (k == 1 && first == 0)),
            best matches Some(b) ==> {
                &&& b < k
                &&& b != first
                &&& forall|m: int| 0 <= m < k && m != first ==> ks[b as int] <= #[trigger] ks[m]
                &&& forall|m: int| 0 <= m < b && m != first ==> ks[b as int] < #[trigger] ks[m]
            },
        decreases keys.len() - k,
    {
        if k != first {
            match best {
                None => {
                    best = Some(k);
                },
                Some(b) => {
                    if keys[k] < keys[b] {
                        best = Some(k);
                    }
                },
            }
        }
        k = k + 1;
    }
    best
}

/// Position `i` is the first measurement of `library`.
pub open spec fn is_first_of(measurements: Seq<Measurement>, library: Seq<char>, i: int) -> bool {
    &&& 0 <= i < measurements.len()
    &&& measurements[i].library@ == library
    &&& forall|k: int| 0 <= k < i ==> (#[trigger] measurements[k]).library@ != library
}

impl Row {
    /// The libraries come in strictly ascending order of their names (so each comes once),
    /// and a speedup is given exactly when two or more libraries were measured.
    pub open spec fn well_formed(self) -> bool {
        &&& forall|i: int, j: int|
            0 <= i < j < self.measurements@.len() ==> lex_less(
                (#[trigger] self.measurements@[i]).library@,
                (#[trigger] self.measurements@[j]).library@,
            )
        &&& (self.speedup_text is Some <==> self.measurements@.len() >= 2)
    }

    /// Whether the row is well formed.
    pub fn is_well_formed(&self) -> (ok: bool)
        ensures
            ok == self.well_formed(),
    {
        let n = self.measurements.len();
        let mut j: usize = 1;
        while j < n
            invariant
                n == self.measurements@.len(),
                1 <= j,
                forall|a: int, b: int|
                    0 <= a < b < j && b < n ==> lex_less(
                        (#[trigger] self.measurements@[a]).library@,
                        (#[trigger] self.measurements@[b]).library@,
                    ),
            decreases n - j,
        {
            let mut i: usize = 0;
            while i < j
                invariant
                    n == self.measurements@.len(),
                    1 <= j < n,
                    i <= j,
                    forall|a: int, b: int|
                        0 <= a < b < j ==> lex_less(
                            (#[trigger] self.measurements@[a]).library@,
                            (#[trigger] self.measurements@[b]).library@,
                        ),
                    forall|a: int|
                        0 <= a < i ==> lex_less(
                            (#[trigger] self.measurements@[a]).library@,
                            self.measurements@[j as int].library@,
                        ),
                decreases j - i,
            {
                if !text_less(
                    self.measurements[i].library.as_str(),
                    self.measurements[j].library.as_str(),
                ) {
                    return false;
                }
                i = i + 1;
            }
            j = j + 1;
        }
        self.speedup_text.is_some() == (n >= 2)
    }

    /// Position of the measurement with the smallest time (the first of them on a tie).
    pub open spec fn fastest_index(self) -> Option<int> {
        if self.measurements@.len() == 0 {
            None
        } else {
            Some(choose|i: int| is_first_minimum(keys_of(self.measurements@), i))
        }
    }

    /// Name of the fastest library of the row.
    pub open spec fn fastest_library(self) -> Option<Seq<char>> {
        match self.fastest_index() {
            Some(i) => Some(self.measurements@[i].library@),
            None => None,
        }
    }

    /// Position of the runner-up measurement, when two or more were made.
    pub open spec fn runner_up_index(self) -> Option<int> {
        match self.fastest_index() {
            Some(i) => if self.measurements@.len() >= 2 {
                Some(choose|j: int| is_runner_up(keys_of(self.measurements@), i, j))
            } else {
                None
            },
            None => None,
        }
    }

    /// Text of the cell of `library`: its time, or `-` when it was not measured.
    pub open spec fn cell_text(self, library: Seq<char>) -> Seq<char> {
        if exists|i: int| is_first_of(self.measurements@, library, i) {
            self.measurements@[choose|i: int| is_first_of(self.measurements@, library, i)].time_text@
        } else {
            "-"@
        }
    }

    fn keys(&self) -> (keys: Vec<u64>)
        ensures
            keys@.len() == self.measurements@.len(),
            keys@.map_values(|k: u64| k as int) == keys_of(self.measurements@),
    {
        let mut keys: Vec<u64> = Vec::new();
        let mut i: usize = 0;
        while i < self.measurements.len()
            invariant
                i <= self.measurements@.len(),
                keys@.len() == i,
                forall|k: int|
                    0 <= k < i ==> keys@[k] as int == time_key(
                        #[trigger] self.measurements@[k].nanos_bits,
                    ),
            decreases self.measurements@.len() - i,
        {
            keys.push(total_order_key(self.measurements[i].nanos_bits));
            i = i + 1;
        }
        assert(keys@.map_values(|k: u64| k as int) =~= keys_of(self.measurements@));
        keys
    }

    /// Position of the fastest measurement; `None` when the row has none.
    pub fn fastest_position(&self) -> (found: Option<usize>)
        ensures
            found is None <==> self.fastest_index() is None,
            found matches Some(i) ==> i < self.measurements@.len() && self.fastest_index() == Some(
                i as int,
            ),
            found matches Some(i) ==> is_first_minimum(keys_of(self.measurements@), i as int),
    {
        let keys = self.keys();
        let found = first_minimum(&keys);
        proof {
            if let Some(i) = found {
                let ks = keys_of(self.measurements@);
                let c = choose|c: int| is_first_minimum(ks, c);
                lemma_first_minimum_unique(ks, i as int, c);
            }
        }
        found
    }

    /// Name of the fastest library of the row; `None` when the row has no measurement.
    /// Ties go to the library that comes first in the row.
    pub fn fastest(&self) -> (name: Option<&String>)
        ensures
            match name {
                Some(n) => self.fastest_library() == Some(n@),
                None => self.fastest_library() is None,
            },
            name is None <==> self.measurements@.len() == 0,
            name matches Some(n) ==> exists|i: int|
                is_first_minimum(keys_of(self.measurements@), i) && n@
                    == #[trigger] self.measurements@[i].library@,
    {
        match self.fastest_position() {
            Some(i) => Some(&self.measurements[i].library),
            None => None,
        }
    }

    /// Positions of the fastest and of the next-fastest measurement, whose times the
    /// speedup divides; `None` when fewer than two libraries were measured.
    pub fn speedup_operands(&self) -> (operands: Option<(usize, usize)>)
        ensures
            operands is None <==> self.measurements@.len() < 2,
            operands matches Some((i, j)) ==> self.fastest_index() == Some(i as int)
                && self.runner_up_index() == Some(j as int),
            operands matches Some((i, j)) ==> is_first_minimum(keys_of(self.measurements@), i as int)
                && is_runner_up(keys_of(self.measurements@), i as int, j as int),
    {
        let keys = self.keys();
        match first_minimum(&keys) {
            None => None,
            Some(i) => {
                let ks = Ghost(keys_of(self.measurements@));
                proof {
                    let c = choose|c: int| is_first_minimum(ks@, c);
                    lemma_first_minimum_unique(ks@, i as int, c);
                }
                match runner_up(&keys, i) {
                    None => None,
                    Some(j) => {
                        proof {
                            let c = choose|c: int| is_runner_up(ks@, i as int, c);
                            lemma_runner_up_unique(ks@, i as int, j as int, c);
                        }
                        Some((i, j))
                    },
                }
            },
        }
    }

    /// Text of the cell of `library` in this row: the time measured for it,
    /// or `-` when it was not measured in this scenario.
    pub fn cell(&self, library: &String) -> (text: String)
        ensures
            text@ == self.cell_text(library@),
            forall|i: int|
                is_first_of(self.measurements@, library@, i) ==> text@
                    == (#[trigger] self.measurements@[i]).time_text@,
            (forall|i: int|
                0 <= i < self.measurements@.len() ==> (#[trigger] self.measurements@[i]).library@
                    != library@) ==> text@ == "-"@,
    {
        let mut i: usize = 0;
        while i < self.measurements.len()
            invariant
                i <= self.measurements@.len(),
                forall|k: int| 0 <= k < i ==> (#[trigger] self.measurements@[k]).library@ != library@,
            decreases self.measurements@.len() - i,
        {
            if self.measurements[i].library == *library {
                proof {
                    assert(is_first_of(self.measurements@, library@, i as int));
                    let c = choose|c: int| is_first_of(self.measurements@, library@, c);
                    if c < i {
                        assert(self.measurements@[c].library@ != library@);
                    } else if c > i {
                        assert(self.measurements@[i as int].library@ != library@);
                    }
                }
                return self.measurements[i].time_text.clone();
            }
            i = i + 1;
        }
        String::from_str("-")
    }
}

/// A nonempty sequence of keys has a first minimum.
pub proof fn lemma_first_minimum_exists(keys: Seq<int>)
    requires
        keys.len() > 0,
    ensures
        exists|i: int| is_first_minimum(keys, i),
    decreases keys.len(),
{
    if keys.len() == 1 {
        assert(is_first_minimum(keys, 0));
    } else {
        let front = keys.drop_last();
        lemma_first_minimum_exists(front);
        let i = choose|i: int| is_first_minimum(front, i);
        let last = keys.len() - 1;
        if keys[last] < keys[i] {
            assert forall|k: int| 0 <= k < keys.len() implies keys[last] <= #[trigger] keys[k] by {
                if k < last {
                    assert(front[k] == keys[k]);
                }
            }
            assert forall|k: int| 0 <= k < last implies keys[last] < #[trigger] keys[k] by {
                assert(front[k] == keys[k]);
            }
            assert(is_first_minimum(keys, last));
        } else {
            assert forall|k: int| 0 <= k < keys.len() implies keys[i] <= #[trigger] keys[k] by {
                if k < last {
                    assert(front[k] == keys[k]);
                }
            }
            assert forall|k: int| 0 <= k < i implies keys[i] < #[trigger] keys[k] by {
                assert(front[k] == keys[k]);
            }
            assert(is_first_minimum(keys, i));
        }
    }
}

/// Besides any position `i` of two or more keys there is a runner-up.
pub proof fn lemma_runner_up_exists(keys: Seq<int>, i: int)
    requires
        keys.len() >= 2,
        0 <= i < keys.len(),
    ensures
        exists|j: int| is_runner_up(keys, i, j),
    decreases keys.len(),
{
    let front = keys.drop_last();
    let last = keys.len() - 1;
    if i == last {
        lemma_first_minimum_exists(front);
        let j = choose|j: int| is_first_minimum(front, j);
        assert forall|k: int| 0 <= k < keys.len() && k != i implies keys[j] <= #[trigger] keys[k] by {
            assert(front[k] == keys[k]);
        }
        assert forall|k: int| 0 <= k < j && k != i implies keys[j] < #[trigger] keys[k] by {
            assert(front[k] == keys[k]);
        }
        assert(front[j] == keys[j]);
        assert(is_runner_up(keys, i, j));
    } else if keys.len() == 2 {
        assert(is_runner_up(keys, i, last));
    } else {
        lemma_runner_up_exists(front, i);
        let j = choose|j: int| is_runner_up(front, i, j);
        assert(front[j] == keys[j]);
        if keys[last] < keys[j] {
            assert forall|k: int| 0 <= k < keys.len() && k != i implies keys[last] <= #[trigger] keys[k] by {
                if k < last {
                    assert(front[k] == keys[k]);
                }
            }
            assert forall|k: int| 0 <= k < last && k != i implies keys[last] < #[trigger] keys[k] by {
                assert(front[k] == keys[k]);
            }
            assert(is_runner_up(keys, i, last));
        } else {
            assert forall|k: int| 0 <= k < keys.len() && k != i implies keys[j] <= #[trigger] keys[k] by {
                if k < last {
                    assert(front[k] == keys[k]);
                }
            }
            assert forall|k: int| 0 <= k < j && k != i implies keys[j] < #[trigger] keys[k] by {
                assert(front[k] == keys[k]);
            }
            assert(is_runner_up(keys, i, j));
        }
    }
}

/// The fastest library of a row is the library of a measurement whose time is no larger
/// than any other time of the row, and no earlier measurement has as small a time;
/// a row has a fastest library exactly when it has a measurement.
pub proof fn lemma_fastest_is_smallest(row: Row)
    ensures
        row.fastest_library() is None <==> row.measurements@.len() == 0,
        row.fastest_library() matches Some(name) ==> exists|i: int|
            #![trigger row.measurements@[i]]
            0 <= i < row.measurements@.len() && row.measurements@[i].library@ == name && (forall|
                k: int,
            |
                0 <= k < row.measurements@.len() ==> time_key(row.measurements@[i].nanos_bits)
                    <= time_key(#[trigger] row.measurements@[k].nanos_bits)) && (forall|k: int|
                0 <= k < i ==> time_key(row.measurements@[i].nanos_bits) < time_key(
                    #[trigger] row.measurements@[k].nanos_bits,
                )),
{
    let ms = row.measurements@;
    let keys = keys_of(ms);
    if ms.len() > 0 {
        lemma_first_minimum_exists(keys);
        let i = choose|i: int| is_first_minimum(keys, i);
        assert forall|k: int| 0 <= k < ms.len() implies time_key(ms[i].nanos_bits) <= time_key(
            #[trigger] ms[k].nanos_bits,
        ) by {
            assert(keys[k] == time_key(ms[k].nanos_bits));
            assert(keys[i] == time_key(ms[i].nanos_bits));
        }
        assert forall|k: int| 0 <= k < i implies time_key(ms[i].nanos_bits) < time_key(
            #[trigger] ms[k].nanos_bits,
        ) by {
            assert(keys[k] == time_key(ms[k].nanos_bits));
            assert(keys[i] == time_key(ms[i].nanos_bits));
        }
        assert(row.fastest_library() == Some(ms[i].library@));
    }
}

/// The speedup compares the fastest measurement `i` with the one that comes second when the
/// times are sorted stably: a different measurement `j` whose time is no larger than any time
/// but the fastest's, and no earlier such measurement has as small a time. Both exist
/// exactly when two or more libraries were measured.
pub proof fn lemma_runner_up_is_next_fastest(row: Row)
    ensures
        row.runner_up_index() is Some <==> row.measurements@.len() >= 2,
        row.runner_up_index() matches Some(j) ==> ({
            let ms = row.measurements@;
            let i = row.fastest_index()->Some_0;
            &&& row.fastest_index() is Some
            &&& 0 <= i < ms.len()
            &&& forall|k: int|
                0 <= k < ms.len() ==> time_key(ms[i].nanos_bits) <= time_key(
                    #[trigger] ms[k].nanos_bits,
                )
            &&& 0 <= j < ms.len()
            &&& j != i
            &&& forall|k: int|
                0 <= k < ms.len() && k != i ==> time_key(ms[j].nanos_bits) <= time_key(
                    #[trigger] ms[k].nanos_bits,
                )
            &&& forall|k: int|
                0 <= k < j && k != i ==> time_key(ms[j].nanos_bits) < time_key(
                    #[trigger] ms[k].nanos_bits,
                )
        }),
{
    let ms = row.measurements@;
    let keys = keys_of(ms);
    if ms.len() >= 2 {
        lemma_first_minimum_exists(keys);
        let i = choose|i: int| is_first_minimum(keys, i);
        lemma_runner_up_exists(keys, i);
        let j = choose|j: int| is_runner_up(keys, i, j);
        assert(row.fastest_index() == Some(i));
        assert(row.runner_up_index() == Some(j));
        assert forall|k: int| 0 <= k < ms.len() implies time_key(ms[i].nanos_bits) <= time_key(
            #[trigger] ms[k].nanos_bits,
        ) by {
            assert(keys[k] == time_key(ms[k].nanos_bits));
            assert(keys[i] == time_key(ms[i].nanos_bits));
        }
        assert forall|k: int| 0 <= k < ms.len() && k != i implies time_key(ms[j].nanos_bits)
            <= time_key(#[trigger] ms[k].nanos_bits) by {
            assert(keys[k] == time_key(ms[k].nanos_bits));
            assert(keys[j] == time_key(ms[j].nanos_bits));
        }
        assert forall|k: int| 0 <= k < j && k != i implies time_key(ms[j].nanos_bits) < time_key(
            #[trigger] ms[k].nanos_bits,
        ) by {
            assert(keys[k] == time_key(ms[k].nanos_bits));
            assert(keys[j] == time_key(ms[j].nanos_bits));
        }
    } else if ms.len() == 1 {
        lemma_first_minimum_exists(keys);
    }
}

/// A measurement of `library` has a first occurrence.
proof fn lemma_first_of_exists(ms: Seq<Measurement>, library: Seq<char>, n: int)
    requires
        0 <= n < ms.len(),
        ms[n].library@ == library,
    ensures
        exists|i: int| is_first_of(ms, library, i),
    decreases n,
{
    if exists|k: int| 0 <= k < n && (#[trigger] ms[k]).library@ == library {
        let k = choose|k: int| 0 <= k < n && (#[trigger] ms[k]).library@ == library;
        lemma_first_of_exists(ms, library, k);
    } else {
        assert(is_first_of(ms, library, n));
    }
}

/// The cell of a column shows the time of the row's first measurement whose library is
/// exactly the column's library, and `-` when no measurement is of that library.
pub proof fn lemma_cell_shows_own_time(row: Row, library: Seq<char>)
    ensures
        (forall|i: int|
            0 <= i < row.measurements@.len() ==> (#[trigger] row.measurements@[i]).library@
                != library) ==> row.cell_text(library) == "-"@,
        (exists|i: int|
            0 <= i < row.measurements@.len() && (#[trigger] row.measurements@[i]).library@
                == library) ==> exists|i: int|
            #![trigger row.measurements@[i]]
            0 <= i < row.measurements@.len() && row.measurements@[i].library@ == library && (
            forall|k: int|
                0 <= k < i ==> (#[trigger] row.measurements@[k]).library@ != library)
                && row.cell_text(library) == row.measurements@[i].time_text@,
{
    let ms = row.measurements@;
    if exists|i: int| 0 <= i < ms.len() && (#[trigger] ms[i]).library@ == library {
        let n = choose|i: int| 0 <= i < ms.len() && (#[trigger] ms[i]).library@ == library;
        lemma_first_of_exists(ms, library, n);
        let i = choose|i: int| is_first_of(ms, library, i);
        assert(row.cell_text(library) == ms[i].time_text@);
    } else {
        if exists|i: int| is_first_of(ms, library, i) {
            let i = choose|i: int| is_first_of(ms, library, i);
            assert(ms[i].library@ == library);
        }
    }
}

} // verus!
