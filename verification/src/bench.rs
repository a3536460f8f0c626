//! Benchmark support: option records, benchmark interfaces and the
//! deterministic generator used to build workloads.
use vstd::prelude::*;
use crate::jagged::{spec_flat, spec_lens, ComplexVec};

verus! {

/// Options of a latency run.
#[derive(Clone, Copy, Debug)]
pub struct LatencyOptions {
    /// Timed iterations.
    pub iterations: usize,
    /// Untimed warm-up iterations before them.
    pub skip: usize,
    /// Validation repetitions per iteration.
    pub warmup_validation: usize,
    /// Smallest message size in bytes.
    pub min_size: usize,
    /// Largest message size in bytes.
    pub max_size: usize,
}

/// A latency benchmark: per-size preparation and the timed body.
pub trait LatencyBenchmark {
    /// Prepare buffers for one message size; not timed.
    fn init(&mut self, size: usize);

    /// The code being timed.
    fn body(&mut self);
}

/// Options of a bandwidth run.
#[derive(Clone, Copy, Debug)]
pub struct BandwidthOptions {
    /// Smallest message size in bytes.
    pub min_size: usize,
    /// Largest message size in bytes.
    pub max_size: usize,
    /// Messages in flight per iteration.
    pub window_size: usize,
    /// Timed iterations.
    pub iterations: usize,
    /// Untimed warm-up iterations before them.
    pub skip: usize,
    /// Validation repetitions per iteration.
    pub warmup_validation: usize,
}

/// A bandwidth benchmark: per-size preparation and the timed body.
pub trait BandwidthBenchmark {
    /// Prepare a window of buffers for one message size; not timed.
    fn init(&mut self, window_size: usize, size: usize);

    /// The code being timed.
    fn body(&mut self);
}

/// Which benchmark flavour to run.
#[derive(Copy, Clone, Debug, PartialEq, Eq, Structural)]
pub enum BenchmarkKind {
    /// Manual packing into a plain byte buffer.
    Packed,
    /// The custom-datatype engine.
    Custom,
}

/// Which datatype a benchmark exercises.
#[derive(Copy, Clone, Debug, PartialEq, Eq, Structural)]
pub enum BenchmarkDatatype {
    /// The jagged vector of vectors.
    DoubleVec,
    /// The struct with a streamed head and a region tail.
    StructVec,
}

/// Which datatype a reference run exercises.
#[derive(Copy, Clone, Debug, PartialEq, Eq, Structural)]
pub enum RsmpiDatatype {
    /// Plain bytes.
    Bytes,
    /// The struct datatype.
    StructVec,
}

/// The multiplier of the linear congruence the generator steps by.
pub const RANDOM_MULTIPLIER: usize = 503;

/// The modulus of the linear congruence the generator steps by.
pub const RANDOM_MODULUS: usize = 54018521;

/// A deterministic pseudo-random sequence: repeated multiplication by
/// [`RANDOM_MULTIPLIER`] modulo [`RANDOM_MODULUS`].
pub struct Random {
    last: usize,
}

impl Random {
    /// The current state, always below the modulus.
    pub closed spec fn state(self) -> int {
        self.last as int
    }

    /// Start the sequence from a seed. Seeds are taken modulo
    /// [`RANDOM_MODULUS`], which leaves every value of the sequence
    /// unchanged.
    pub fn new(seed: usize) -> (r: Random)
        ensures
            r.state() == seed as int % RANDOM_MODULUS as int,
            0 <= r.state() < RANDOM_MODULUS,
    {
        Random { last: seed % RANDOM_MODULUS }
    }

    /// Step the sequence and return its next value.
    pub fn value(&mut self) -> (v: usize)
        requires
            0 <= old(self).state() < RANDOM_MODULUS,
        ensures
            v as int == (RANDOM_MULTIPLIER * old(self).state()) % (RANDOM_MODULUS as int),
            final(self).state() == v as int,
            0 <= final(self).state() < RANDOM_MODULUS,
    {
        let wide: u64 = (RANDOM_MULTIPLIER as u64) * (self.last as u64);
        let v: usize = (wide % (RANDOM_MODULUS as u64)) as usize;
        proof {
            assert(RANDOM_MULTIPLIER * old(self).state() == wide as int);
            assert(wide as int % (RANDOM_MODULUS as int) == (wide % (RANDOM_MODULUS as u64))
                as int);
        }
        self.last = v;
        v
    }
}

/// The length of the next sub-vector the generator builds from a state: the
/// drawn value modulo the total, kept within what remains, and at least one
/// element so every draw makes progress.
pub open spec fn spec_draw_len(total: int, count: int, state: int) -> int {
    let drawn = (RANDOM_MULTIPLIER * state) % (RANDOM_MODULUS as int);
    let capped = if count + (drawn % total) > total {
        total - count
    } else {
        drawn % total
    };
    if capped == 0 {
        1int
    } else {
        capped
    }
}

/// The sub-vector lengths the generator produces: with `count` elements
/// already placed and the generator in `state`, one drawn length after
/// another until the total is reached. The partition is a function of the
/// total and the seed alone.
pub open spec fn spec_partition(total: int, count: int, state: int) -> Seq<int>
    decreases total - count,
{
    if count >= total {
        Seq::empty()
    } else {
        let l = spec_draw_len(total, count, state);
        let next = (RANDOM_MULTIPLIER * state) % (RANDOM_MODULUS as int);
        if 1 <= l <= total - count {
            seq![l] + spec_partition(total, count + l, next)
        } else {
            Seq::empty()
        }
    }
}

/// Build a randomly partitioned jagged vector: sub-vector lengths are drawn
/// from [`Random`], the partition is exactly [`spec_partition`] of the total
/// and the seed, and the flattened contents count up from zero across the
/// whole vector.
pub fn generate_complex_vec(total: usize, seed: usize) -> (r: ComplexVec)
    requires
        total <= i32::MAX,
    ensures
        r.flat() == Seq::new(total as nat, |k: int| k as i32),
        r.shape() == spec_partition(
            total as int,
            0,
            seed as int % (RANDOM_MODULUS as int),
        ),
{
    let mut rand = Random::new(seed);
    let mut count: usize = 0;
    let mut data: Vec<Vec<i32>> = Vec::new();
    proof {
        assert(spec_lens(data@.map_values(|v: Vec<i32>| v@)) =~= Seq::<int>::empty());
    }
    while count < total
        invariant
            count <= total,
            total <= i32::MAX,
            0 <= rand.state() < RANDOM_MODULUS,
            spec_flat(data@.map_values(|v: Vec<i32>| v@)) == Seq::new(
                count as nat,
                |k: int| k as i32,
            ),
            spec_partition(total as int, 0, seed as int % (RANDOM_MODULUS as int))
                == spec_lens(data@.map_values(|v: Vec<i32>| v@)) + spec_partition(
                total as int,
                count as int,
                rand.state(),
            ),
        decreases total - count,
    {
        let ghost prev = data@.map_values(|v: Vec<i32>| v@);
        let ghost state0 = rand.state();
        let drawn = rand.value();
        let len = drawn % total;
        let len = if count + len > total {
            total - count
        } else {
            len
        };
        // An empty draw would make no progress; take one element instead.
        let len = if len == 0 {
            1
        } else {
            len
        };
        let mut inner: Vec<i32> = Vec::new();
        let mut i: usize = 0;
        while i < len
            invariant
                i <= len,
                count + len <= total,
                total <= i32::MAX,
                inner@.len() == i,
                inner@ == Seq::new(i as nat, |k: int| (count + k) as i32),
            decreases len - i,
        {
            let ghost pinner = inner@;
            inner.push((count + i) as i32);
            proof {
                assert(inner@ =~= Seq::new((i + 1) as nat, |k: int| (count + k) as i32));
            }
            i += 1;
        }
        data.push(inner);
        proof {
            let cur = data@.map_values(|v: Vec<i32>| v@);
            assert(cur =~= prev.push(inner@));
            assert(cur.drop_last() =~= prev);
            assert(spec_flat(cur) =~= Seq::new((count + len) as nat, |k: int| k as i32));
            assert(len as int == spec_draw_len(total as int, count as int, state0));
            assert(spec_partition(total as int, count as int, state0) == seq![len as int]
                + spec_partition(total as int, count as int + len as int, rand.state()));
            assert(spec_lens(cur) =~= spec_lens(prev).push(len as int));
            assert(spec_lens(prev) + spec_partition(total as int, count as int, state0)
                =~= spec_lens(cur) + spec_partition(
                total as int,
                count as int + len as int,
                rand.state(),
            ));
        }
        count = count + len;
    }
    proof {
        assert(spec_flat(data@.map_values(|v: Vec<i32>| v@)) =~= Seq::new(
            total as nat,
            |k: int| k as i32,
        ));
        assert(spec_partition(total as int, count as int, rand.state()) =~= Seq::<int>::empty());
        assert(spec_lens(data@.map_values(|v: Vec<i32>| v@)) + Seq::<int>::empty() =~= spec_lens(
            data@.map_values(|v: Vec<i32>| v@),
        ));
    }
    ComplexVec(data)
}

} // verus!
