//! How much room a parser that writes its tape into memory of a fixed size is given, and
//! what is done when that was too little.
use vstd::prelude::*;

verus! {

/// The number of entries that the first attempt gets room for: the hint, or a quarter of
/// the length of the source and at least two.
pub open spec fn first_room(src_len: int, hint: Option<usize>) -> int {
    match hint {
        Some(n) => n as int,
        None => if src_len / 4 > 2 {
            src_len / 4
        } else {
            2
        },
    }
}

/// The number of entries that the first attempt gets room for.
pub fn initial_capacity(src_len: usize, hint: Option<usize>) -> (r: usize)
    ensures
        r == first_room(src_len as int, hint),
{
    match hint {
        Some(n) => n,
        None => if src_len / 4 > 2 {
            src_len / 4
        } else {
            2
        },
    }
}

/// The room for the attempt after one with room for `capacity` entries: twice as much, as
/// far as that can be counted, and in any case one more.
pub open spec fn next_capacity(capacity: int) -> int {
    let twice = if 2 * capacity <= usize::MAX {
        2 * capacity
    } else {
        usize::MAX as int
    };
    if twice > capacity + 1 {
        twice
    } else {
        capacity + 1
    }
}

/// The room after `attempts` attempts more.
pub open spec fn capacity_after(capacity: int, attempts: nat) -> int
    decreases attempts,
{
    if attempts == 0 {
        capacity
    } else {
        next_capacity(capacity_after(capacity, (attempts - 1) as nat))
    }
}

/// What comes after an attempt.
pub enum Attempt {
    /// The tape is complete.
    Accepted,
    /// The source is not valid JSON.
    Rejected,
    /// The tape was too small; try again with this much room.
    Retry(usize),
}

/// The result code of a complete tape.
pub const RESULT_OK: u8 = 0;

/// The result code of a tape that was too small.
pub const RESULT_TAPE_OVERFLOW: u8 = 2;

/// What comes after an attempt with room for `capacity` entries that ended with the
/// result code `code`.
pub open spec fn decision(code: u8, capacity: int) -> Attempt {
    if code == RESULT_OK {
        Attempt::Accepted
    } else if code == RESULT_TAPE_OVERFLOW {
        Attempt::Retry(next_capacity(capacity) as usize)
    } else {
        Attempt::Rejected
    }
}

/// What comes after an attempt with room for `capacity` entries that ended with the
/// result code `code`.
pub fn after_attempt(code: u8, capacity: usize) -> (r: Attempt)
    requires
        code == RESULT_TAPE_OVERFLOW ==> capacity < usize::MAX,
    ensures
        r == decision(code, capacity as int),
        r matches Attempt::Retry(n) ==> n == next_capacity(capacity as int),
{
    if code == RESULT_OK {
        Attempt::Accepted
    } else if code == RESULT_TAPE_OVERFLOW {
        let twice: usize = match capacity.checked_mul(2) {
            Some(n) => n,
            None => usize::MAX,
        };
        Attempt::Retry(
            if twice > capacity + 1 {
                twice
            } else {
                capacity + 1
            },
        )
    } else {
        Attempt::Rejected
    }
}

/// Every attempt gets more room than the one before, so that any number of entries is
/// reached after that many attempts at the latest.
pub proof fn law_room_grows(capacity: int, attempts: nat)
    requires
        0 <= capacity,
    ensures
        next_capacity(capacity) > capacity,
        capacity_after(capacity, attempts) >= capacity + attempts,
    decreases attempts,
{
    if attempts > 0 {
        law_room_grows(capacity, (attempts - 1) as nat);
    }
}

/// The result code of an attempt on a source that takes `needed` entries until `verdict` is
/// reached: the room is too small exactly if it is smaller than that.
pub open spec fn code_of(needed: int, verdict: u8, capacity: int) -> u8 {
    if capacity < needed {
        RESULT_TAPE_OVERFLOW
    } else {
        verdict
    }
}

/// How often the attempt with room for `capacity` entries is repeated until there is room
/// for `needed`.
pub open spec fn retries(needed: int, capacity: int) -> nat
    decreases
            if capacity < needed {
                needed - capacity
            } else {
                0
            },
{
    if capacity < needed {
        1 + retries(needed, next_capacity(capacity))
    } else {
        0
    }
}

/// What the attempts come to, the first of which has room for `capacity` entries: each is
/// followed by what is decided after it.
pub open spec fn outcome(needed: int, verdict: u8, capacity: int) -> Attempt
    decreases
            if capacity < needed {
                needed - capacity
            } else {
                0
            },
{
    match decision(code_of(needed, verdict, capacity), capacity) {
        Attempt::Retry(room) => if capacity < needed && capacity < room {
            outcome(needed, verdict, room as int)
        } else {
            Attempt::Retry(room)
        },
        done => done,
    }
}

/// One attempt first or last makes no difference to the room.
proof fn lemma_capacity_after(capacity: int, attempts: nat)
    ensures
        capacity_after(next_capacity(capacity), attempts) == capacity_after(capacity, attempts + 1),
    decreases attempts,
{
    if attempts > 0 {
        lemma_capacity_after(capacity, (attempts - 1) as nat);
    } else {
        assert(capacity_after(capacity, 0) == capacity);
        assert(capacity_after(capacity, 1) == next_capacity(capacity_after(capacity, 0)));
    }
}

/// With any first room that can be counted, the attempts end with the verdict.  The last of
/// them has room for what is needed; each before it has not, and is followed by the next.
pub proof fn law_attempts_end(needed: int, verdict: u8, capacity: int)
    requires
        0 <= needed <= usize::MAX,
        0 <= capacity <= usize::MAX,
        verdict != RESULT_TAPE_OVERFLOW,
    ensures
        outcome(needed, verdict, capacity) == decision(verdict, capacity),
        !(outcome(needed, verdict, capacity) is Retry),
        needed <= capacity_after(capacity, retries(needed, capacity)) <= usize::MAX,
        forall|k: nat|
            k < retries(needed, capacity) ==> {
                let room = #[trigger] capacity_after(capacity, k);
                &&& room < needed
                &&& decision(code_of(needed, verdict, room), room) is Retry
                &&& decision(code_of(needed, verdict, room), room)->Retry_0 == capacity_after(
                    capacity,
                    k + 1,
                )
            },
    decreases
            if capacity < needed {
                needed - capacity
            } else {
                0
            },
{
    if capacity < needed {
        let next = next_capacity(capacity);
        law_attempts_end(needed, verdict, next);
        let n = retries(needed, next);
        lemma_capacity_after(capacity, n);
        assert forall|k: nat| k < retries(needed, capacity) implies {
            let room = #[trigger] capacity_after(capacity, k);
            &&& room < needed
            &&& decision(code_of(needed, verdict, room), room) is Retry
            &&& decision(code_of(needed, verdict, room), room)->Retry_0 == capacity_after(
                capacity,
                k + 1,
            )
        } by {
            if k > 0 {
                let j = (k - 1) as nat;
                lemma_capacity_after(capacity, j);
                lemma_capacity_after(capacity, k);
                assert(capacity_after(next, j) == capacity_after(capacity, k));
            } else {
                assert(capacity_after(capacity, 0) == capacity);
                assert(capacity_after(capacity, 1) == next_capacity(capacity_after(capacity, 0)));
            }
        }
    } else {
        assert(capacity_after(capacity, 0) == capacity);
    }
}

/// The hint for the first room never matters: any two hints, one of zero included, come to
/// the same, and both end with an attempt that has room for what is needed.  A hint that is
/// too small only causes retries.
pub proof fn law_hint_never_matters(
    src_len: usize,
    one: Option<usize>,
    other: Option<usize>,
    needed: int,
    verdict: u8,
)
    requires
        0 <= needed <= usize::MAX,
        verdict != RESULT_TAPE_OVERFLOW,
    ensures
        outcome(needed, verdict, first_room(src_len as int, one)) == outcome(
            needed,
            verdict,
            first_room(src_len as int, other),
        ),
        outcome(needed, verdict, first_room(src_len as int, one)) is Accepted <==> verdict
            == RESULT_OK,
        outcome(needed, verdict, first_room(src_len as int, one)) is Rejected <==> verdict
            != RESULT_OK,
        ({
            let room = first_room(src_len as int, one);
            capacity_after(room, retries(needed, room)) >= needed
        }),
        ({
            let room = first_room(src_len as int, other);
            capacity_after(room, retries(needed, room)) >= needed
        }),
{
    law_attempts_end(needed, verdict, first_room(src_len as int, one));
    law_attempts_end(needed, verdict, first_room(src_len as int, other));
}

/// The first room is the hint if there is one, and else a quarter of the source, at least
/// two.
pub proof fn law_first_room(src_len: usize, n: usize)
    ensures
        first_room(src_len as int, Some(n)) == n,
        first_room(src_len as int, None) >= 2,
        src_len >= 8 ==> 4 * first_room(src_len as int, None) <= src_len < 4 * first_room(
            src_len as int,
            None,
        ) + 4,
        src_len < 8 ==> first_room(src_len as int, None) == 2,
{
}

/// The room is doubled from one attempt to the next, as far as that can be counted; from
/// none it goes to one.
pub proof fn law_room_doubles(capacity: usize)
    ensures
        capacity >= 1 && 2 * capacity <= usize::MAX ==> next_capacity(capacity as int) == 2
            * capacity,
        capacity == 0 ==> next_capacity(capacity as int) == 1,
        2 * capacity > usize::MAX && capacity < usize::MAX ==> next_capacity(capacity as int)
            == usize::MAX,
{
}

/// Which result code leads to what.
pub proof fn law_result_codes(code: u8, capacity: usize)
    requires
        code == 2 ==> capacity < usize::MAX,
    ensures
        code == 0 <==> decision(code, capacity as int) is Accepted,
        code == 2 <==> decision(code, capacity as int) is Retry,
        code == 2 ==> decision(code, capacity as int)->Retry_0 == next_capacity(capacity as int),
{
}

}
