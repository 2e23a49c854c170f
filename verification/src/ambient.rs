//! What the node takes from its surroundings: random draws and the clock.
//! Nothing is known of these values in advance, so the functions here
//! promise nothing of them; what is done with them is decided elsewhere, for
//! every value they may have.

use vstd::prelude::*;

verus! {

/// One byte from the generator of `rand::thread_rng`, by `rand::Rng::gen`.
/// Any byte may come, so nothing is promised of it. The generator starts
/// from what the system gives it; where the system gives nothing, the call
/// does not return.
#[verifier::external_body]
pub(crate) fn random_u8() -> (r: u8) {
    rand::Rng::gen::<u8>(&mut rand::thread_rng())
}

/// The clock, by `std::time::SystemTime::now`, as milliseconds since the
/// Unix epoch; zero where the clock stands before the epoch. Any time may
/// come.
#[verifier::external_body]
pub(crate) fn now_millis() -> (r: u128) {
    match std::time::SystemTime::now().duration_since(std::time::UNIX_EPOCH) {
        Ok(elapsed) => elapsed.as_millis(),
        Err(_) => 0,
    }
}

/// Thirty-two bytes drawn at random.
pub(crate) fn random_bytes_32() -> (r: [u8; 32]) {
    let mut r = [0u8; 32];
    let mut i: usize = 0;
    while i < 32
        invariant
            i <= 32,
        decreases 32 - i,
    {
        r[i] = random_u8();
        i += 1;
    }
    r
}

/// Twenty bytes drawn at random.
pub(crate) fn random_bytes_20() -> (r: [u8; 20]) {
    let mut r = [0u8; 20];
    let mut i: usize = 0;
    while i < 20
        invariant
            i <= 20,
        decreases 20 - i,
    {
        r[i] = random_u8();
        i += 1;
    }
    r
}

/// A 32-bit number drawn at random, byte by byte.
pub(crate) fn random_u32() -> (r: u32) {
    let mut r: u32 = 0;
    let mut i: usize = 0;
    while i < 4
        invariant
            i <= 4,
            i == 0 ==> r == 0,
            i == 1 ==> r <= 0xff,
            i == 2 ==> r <= 0xffff,
            i == 3 ==> r <= 0xff_ffff,
        decreases 4 - i,
    {
        r = r * 256 + random_u8() as u32;
        i += 1;
    }
    r
}

} // verus!
