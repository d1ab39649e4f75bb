//! Sizing of the per-thread I/O buffer against available physical memory.
//!
//! Starting from a default size large enough to saturate sequential disk
//! reads, the size is halved while it exceeds the per-thread share of
//! available memory and stays above a floor below which buffering overhead
//! dominates. If even the floor does not fit into the per-thread share, no
//! size is returned and the caller must abort before spawning workers.

use vstd::prelude::*;
use vstd::arithmetic::power2::pow2;
use vstd::arithmetic::power2::lemma_pow2_unfold;
use vstd::arithmetic::power2::lemma_pow2_pos;
use vstd::arithmetic::power2::lemma_pow2_adds;
use vstd::arithmetic::power2::lemma2_to64;
use vstd::arithmetic::div_mod::lemma_fundamental_div_mod;

verus! {

/// Default per-thread buffer size: 256 MiB.
pub const DEFAULT_BUFFER_SIZE: u64 = 256 * 1024 * 1024;

/// Smallest acceptable per-thread buffer size: 16 MiB.
pub const MINIMAL_BUFFER_SIZE: u64 = 16 * 1024 * 1024;

/// The halving sequence: shrink `buf` by factors of two while it exceeds the
/// per-thread budget and stays above the floor.
pub open spec fn shrink_buffer(buf: u64, per_thread: u64) -> u64
    decreases buf,
{
    if buf > per_thread && buf > MINIMAL_BUFFER_SIZE {
        shrink_buffer((buf / 2) as u64, per_thread)
    } else {
        buf
    }
}

/// Every value of the halving sequence started at a power-of-two multiple of
/// the floor stays between the floor and the start, remains a power-of-two
/// fraction of the start, and fits the per-thread budget exactly when the
/// budget is at least the floor.
proof fn lemma_shrink_buffer(buf: u64, per_thread: u64, j: nat)
    requires
        buf as int == MINIMAL_BUFFER_SIZE as int * pow2(j),
    ensures
        MINIMAL_BUFFER_SIZE <= shrink_buffer(buf, per_thread) <= buf,
        exists|k: nat| shrink_buffer(buf, per_thread) as int * pow2(k) == buf as int,
        per_thread >= MINIMAL_BUFFER_SIZE ==> shrink_buffer(buf, per_thread) <= per_thread,
        per_thread < MINIMAL_BUFFER_SIZE ==> shrink_buffer(buf, per_thread) > per_thread,
    decreases buf,
{
    lemma2_to64();
    lemma_pow2_pos(j);
    let s = shrink_buffer(buf, per_thread);
    if buf > per_thread && buf > MINIMAL_BUFFER_SIZE {
        if j == 0 {
            assert(buf as int == MINIMAL_BUFFER_SIZE as int * 1);
            assert(false);
        }
        lemma_pow2_unfold(j);
        lemma_pow2_pos((j - 1) as nat);
        let half = (buf / 2) as u64;
        assert(buf as int == 2 * (MINIMAL_BUFFER_SIZE as int * pow2((j - 1) as nat)))
            by (nonlinear_arith)
            requires
                buf as int == MINIMAL_BUFFER_SIZE as int * pow2(j),
                pow2(j) == 2 * pow2((j - 1) as nat),
        ;
        assert(half as int == MINIMAL_BUFFER_SIZE as int * pow2((j - 1) as nat));
        lemma_shrink_buffer(half, per_thread, (j - 1) as nat);
        assert(s == shrink_buffer(half, per_thread));
        let k0 = choose|k: nat| shrink_buffer(half, per_thread) as int * pow2(k) == half as int;
        lemma_pow2_adds(k0, 1);
        assert(s as int * pow2(k0 + 1) == buf as int) by (nonlinear_arith)
            requires
                s as int * pow2(k0) == half as int,
                pow2(k0 + 1) == pow2(k0) * pow2(1),
                pow2(1) == 2,
                buf as int == 2 * half as int,
        ;
    } else {
        assert(s == buf);
        assert(s as int * pow2(0) == buf as int);
        assert(MINIMAL_BUFFER_SIZE as int * 1 <= MINIMAL_BUFFER_SIZE as int * pow2(j))
            by (nonlinear_arith)
            requires
                pow2(j) >= 1,
        ;
    }
}

/// Computes the per-thread I/O buffer size for `thread_number` workers given
/// `available_memory` bytes of physical memory.
///
/// The result is the default size halved as often as needed so that it fits
/// the per-thread share of available memory, but never below the floor; when
/// even the floor exceeds the per-thread share, the run cannot proceed and
/// `None` is returned. In particular `thread_number * size` never exceeds
/// `available_memory`, and the returned size is always a power-of-two
/// fraction of the default.
pub fn get_buffer_size(thread_number: usize, available_memory: u64) -> (r: Option<usize>)
    requires
        thread_number >= 1,
    ensures
        ({
            let per_thread = available_memory / (thread_number as u64);
            let shrunk = shrink_buffer(DEFAULT_BUFFER_SIZE, per_thread);
            &&& (match r {
                Some(size) => size as u64 == shrunk && size as u64 <= per_thread,
                None => shrunk > per_thread,
            })
            &&& (r is Some <==> per_thread >= MINIMAL_BUFFER_SIZE)
        }),
        r matches Some(size) ==> MINIMAL_BUFFER_SIZE <= size as u64 <= DEFAULT_BUFFER_SIZE,
        r matches Some(size) ==> thread_number as int * size as int <= available_memory as int,
        r matches Some(size) ==> exists|k: nat|
            (size as int) * pow2(k) == DEFAULT_BUFFER_SIZE as int,
{
    let per_thread: u64 = available_memory / (thread_number as u64);
    let mut bufsize: u64 = DEFAULT_BUFFER_SIZE;
    proof {
        lemma2_to64();
        assert(DEFAULT_BUFFER_SIZE as int == MINIMAL_BUFFER_SIZE as int * pow2(4));
        lemma_shrink_buffer(DEFAULT_BUFFER_SIZE, per_thread, 4);
    }
    while bufsize > per_thread && bufsize > MINIMAL_BUFFER_SIZE
        invariant
            shrink_buffer(bufsize, per_thread) == shrink_buffer(DEFAULT_BUFFER_SIZE, per_thread),
            MINIMAL_BUFFER_SIZE <= bufsize <= DEFAULT_BUFFER_SIZE,
            exists|j: nat| bufsize as int == MINIMAL_BUFFER_SIZE as int * pow2(j),
        decreases bufsize,
    {
        proof {
            lemma2_to64();
            let j = choose|j: nat| bufsize as int == MINIMAL_BUFFER_SIZE as int * pow2(j);
            if j == 0 {
                assert(bufsize as int == MINIMAL_BUFFER_SIZE as int * 1);
                assert(false);
            }
            lemma_pow2_unfold(j);
            lemma_pow2_pos((j - 1) as nat);
            assert(bufsize as int == 2 * (MINIMAL_BUFFER_SIZE as int * pow2((j - 1) as nat)))
                by (nonlinear_arith)
                requires
                    bufsize as int == MINIMAL_BUFFER_SIZE as int * pow2(j),
                    pow2(j) == 2 * pow2((j - 1) as nat),
            ;
            assert((bufsize / 2) as int == MINIMAL_BUFFER_SIZE as int * pow2((j - 1) as nat));
            assert(MINIMAL_BUFFER_SIZE as int * 1 <= MINIMAL_BUFFER_SIZE as int
                * pow2((j - 1) as nat)) by (nonlinear_arith)
                requires
                    pow2((j - 1) as nat) >= 1,
            ;
        }
        bufsize = bufsize / 2;
    }
    if bufsize > per_thread {
        None
    } else {
        proof {
            assert(bufsize == shrink_buffer(bufsize, per_thread));
            assert(thread_number as int * bufsize as int <= available_memory as int) by {
                lemma_fundamental_div_mod(available_memory as int, thread_number as int);
                assert(thread_number as int * bufsize as int <= thread_number as int
                    * per_thread as int) by (nonlinear_arith)
                    requires
                        bufsize as int <= per_thread as int,
                        thread_number as int >= 1,
                ;
                assert(thread_number as int * per_thread as int <= available_memory as int);
            }
        }
        Some(bufsize as usize)
    }
}

} // verus!
