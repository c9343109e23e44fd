//! Encoder for the program-store image.
//!
//! The read-only program store is loaded from a text image of exactly
//! `ROM_WORDS` lines, one 8-digit lowercase hex number per line, each line
//! the little-endian 32-bit word at that address. A shorter program is
//! zero-padded to the full length; one that does not fit is a build-time
//! error, never a silent truncation. Reading the compiled binary and writing
//! the image file are I/O done outside this crate; this module turns the
//! binary's bytes into the exact bytes of the image file.

use vstd::prelude::*;

verus! {

/// Number of words in the program store, and of lines in its image.
pub const ROM_WORDS: usize = 4096;

/// Why a program cannot be encoded.
#[derive(Debug, PartialEq, Eq, Structural, Clone, Copy)]
pub enum ImageError {
    /// The program holds more words than the program store.
    TooManyWords,
}

/// The 32-bit word the four bytes spell in little-endian order.
pub open spec fn word_from_bytes(b0: u8, b1: u8, b2: u8, b3: u8) -> u32 {
    (b0 + b1 * 0x100 + b2 * 0x10000 + b3 * 0x1000000) as u32
}

/// `data` zero-padded at the end to a whole number of four-byte words.
pub open spec fn padded_bytes(data: Seq<u8>) -> Seq<u8> {
    data + Seq::new(((4 - data.len() % 4) % 4) as nat, |i: int| 0u8)
}

/// The little-endian words of `data`, whose length must be a multiple of
/// four.
pub open spec fn words_of(data: Seq<u8>) -> Seq<u32>
    recommends
        data.len() % 4 == 0,
{
    Seq::new(
        (data.len() / 4) as nat,
        |i: int| word_from_bytes(data[4 * i], data[4 * i + 1], data[4 * i + 2], data[4 * i + 3]),
    )
}

/// `ws` zero-padded at the end to the full program-store length.
pub open spec fn rom_padded(ws: Seq<u32>) -> Seq<u32>
    recommends
        ws.len() <= ROM_WORDS,
{
    ws + Seq::new((ROM_WORDS - ws.len()) as nat, |i: int| 0u32)
}

/// The ASCII lowercase hex digit of a value below 16.
pub open spec fn hex_digit(n: int) -> u8
    recommends
        0 <= n < 16,
{
    if n < 10 {
        (48 + n) as u8
    } else {
        (87 + n) as u8
    }
}

/// The eight ASCII digits of `w` in hex, most significant nibble first.
pub open spec fn hex_line(w: u32) -> Seq<u8> {
    Seq::new(8, |j: int| hex_digit(((w as int) / pow16(7 - j)) % 16))
}

/// Sixteen raised to the power `e`, for the eight nibble positions.
pub open spec fn pow16(e: int) -> int
    decreases e when 0 <= e
{
    if e <= 0 {
        1
    } else {
        16 * pow16(e - 1)
    }
}

/// The bytes of the whole image file for the words `ws`: one nine-byte line
/// per word — eight hex digits and a newline.
pub open spec fn image_bytes(ws: Seq<u32>) -> Seq<u8> {
    Seq::new(
        (ws.len() * 9) as nat,
        |i: int|
            if i % 9 == 8 {
                10u8
            } else {
                hex_line(ws[i / 9])[i % 9]
            },
    )
}

/// The little-endian words of `data`, zero-padding a trailing partial word.
pub fn bytes_to_words(data: &Vec<u8>) -> (words: Vec<u32>)
    ensures
        words@ == words_of(padded_bytes(data@)),
{
    let mut padded: Vec<u8> = Vec::new();
    let mut i: usize = 0;
    while i < data.len()
        invariant
            i <= data@.len(),
            padded@ == data@.subrange(0, i as int),
        decreases data@.len() - i,
    {
        let b = data[i];
        padded.push(b);
        proof {
            assert(padded@ =~= data@.subrange(0, i as int + 1));
        }
        i = i + 1;
    }
    proof {
        assert(padded@ =~= data@);
    }
    let pad = (4 - padded.len() % 4) % 4;
    let mut p: usize = 0;
    while p < pad
        invariant
            pad == (4 - data@.len() % 4) % 4,
            p <= pad,
            padded@.len() == data@.len() + p,
            padded@.subrange(0, data@.len() as int) == data@,
            forall|j: int| data@.len() <= j < padded@.len() ==> padded@[j] == 0u8,
        decreases pad - p,
    {
        padded.push(0u8);
        proof {
            assert(padded@.subrange(0, data@.len() as int) =~= data@);
        }
        p = p + 1;
    }
    proof {
        assert(padded@ =~= padded_bytes(data@));
    }
    let mut words: Vec<u32> = Vec::new();
    let n = padded.len() / 4;
    let mut k: usize = 0;
    while k < n
        invariant
            padded@ == padded_bytes(data@),
            padded@.len() == 4 * n,
            4 * n <= usize::MAX,
            k <= n,
            words@.len() == k,
            forall|t: int| 0 <= t < k ==> words@[t] == words_of(padded@)[t],
        decreases n - k,
    {
        let b0 = padded[4 * k];
        let b1 = padded[4 * k + 1];
        let b2 = padded[4 * k + 2];
        let b3 = padded[4 * k + 3];
        let w = (b0 as u32) + (b1 as u32) * 0x100 + (b2 as u32) * 0x10000 + (b3 as u32)
            * 0x1000000;
        words.push(w);
        k = k + 1;
    }
    proof {
        assert(words@ =~= words_of(padded_bytes(data@)));
    }
    words
}

/// The program's words padded with zero words to the full program-store
/// length, or the error when the program does not fit.
pub fn rom_words(words: &Vec<u32>) -> (r: Result<Vec<u32>, ImageError>)
    ensures
        words@.len() <= ROM_WORDS ==> (r matches Ok(padded) && padded@ == rom_padded(words@)),
        words@.len() > ROM_WORDS ==> r == Result::<Vec<u32>, ImageError>::Err(
            ImageError::TooManyWords,
        ),
{
    if words.len() > ROM_WORDS {
        return Err(ImageError::TooManyWords);
    }
    let mut out: Vec<u32> = Vec::new();
    let mut i: usize = 0;
    while i < words.len()
        invariant
            i <= words@.len(),
            out@ == words@.subrange(0, i as int),
        decreases words@.len() - i,
    {
        let w = words[i];
        out.push(w);
        proof {
            assert(out@ =~= words@.subrange(0, i as int + 1));
        }
        i = i + 1;
    }
    while out.len() < ROM_WORDS
        invariant
            words@.len() <= out@.len() <= ROM_WORDS,
            out@.subrange(0, words@.len() as int) == words@,
            forall|j: int| words@.len() <= j < out@.len() ==> out@[j] == 0u32,
        decreases ROM_WORDS - out@.len(),
    {
        out.push(0u32);
    }
    proof {
        assert(out@ =~= rom_padded(words@));
    }
    Ok(out)
}

/// The eight ASCII hex digits of `w`, most significant nibble first.
pub fn hex_word(w: u32) -> (line: Vec<u8>)
    ensures
        line@ == hex_line(w),
{
    let mut line: Vec<u8> = Vec::new();
    line.push(hex_digit_of((w / 0x10000000 % 16) as u8));
    line.push(hex_digit_of((w / 0x1000000 % 16) as u8));
    line.push(hex_digit_of((w / 0x100000 % 16) as u8));
    line.push(hex_digit_of((w / 0x10000 % 16) as u8));
    line.push(hex_digit_of((w / 0x1000 % 16) as u8));
    line.push(hex_digit_of((w / 0x100 % 16) as u8));
    line.push(hex_digit_of((w / 0x10 % 16) as u8));
    line.push(hex_digit_of((w % 16) as u8));
    proof {
        assert(pow16(0) == 1);
        assert(pow16(1) == 0x10);
        assert(pow16(2) == 0x100);
        assert(pow16(3) == 0x1000);
        assert(pow16(4) == 0x10000);
        assert(pow16(5) == 0x100000);
        assert(pow16(6) == 0x1000000);
        assert(pow16(7) == 0x10000000);
        assert(line@ =~= hex_line(w));
    }
    line
}

/// The ASCII lowercase hex digit of a nibble.
fn hex_digit_of(n: u8) -> (d: u8)
    requires
        n < 16,
    ensures
        d == hex_digit(n as int),
{
    if n < 10 {
        48 + n
    } else {
        87 + n
    }
}

/// The bytes of the whole program-store image for the given program words:
/// exactly `ROM_WORDS` lines of eight lowercase hex digits and a newline,
/// the program's words first in little-endian hex, zero lines after — or
/// the error when the program does not fit.
pub fn rom_image(words: &Vec<u32>) -> (r: Result<Vec<u8>, ImageError>)
    ensures
        words@.len() <= ROM_WORDS ==> (r matches Ok(img) && img@ == image_bytes(
            rom_padded(words@),
        )),
        words@.len() > ROM_WORDS ==> r == Result::<Vec<u8>, ImageError>::Err(
            ImageError::TooManyWords,
        ),
{
    let padded = match rom_words(words) {
        Ok(p) => p,
        Err(e) => {
            return Err(e);
        },
    };
    let ghost ws = padded@;
    let mut img: Vec<u8> = Vec::new();
    let mut i: usize = 0;
    while i < padded.len()
        invariant
            ws == padded@,
            ws.len() == ROM_WORDS,
            i <= ROM_WORDS,
            img@.len() == 9 * i,
            forall|t: int| 0 <= t < 9 * i ==> img@[t] == image_bytes(ws)[t],
        decreases ROM_WORDS - i,
    {
        let w = padded[i];
        let line = hex_word(w);
        let mut j: usize = 0;
        while j < 8
            invariant
                ws == padded@,
                ws.len() == ROM_WORDS,
                i < ROM_WORDS,
                line@ == hex_line(ws[i as int]),
                j <= 8,
                img@.len() == 9 * i + j,
                forall|t: int| 0 <= t < 9 * i + j ==> img@[t] == image_bytes(ws)[t],
            decreases 8 - j,
        {
            let b = line[j];
            img.push(b);
            proof {
                let t = 9 * (i as int) + j;
                assert(t % 9 == j && t / 9 == i);
            }
            j = j + 1;
        }
        img.push(10u8);
        proof {
            let t = 9 * (i as int) + 8;
            assert(t % 9 == 8);
        }
        i = i + 1;
    }
    proof {
        assert(img@ =~= image_bytes(ws));
    }
    Ok(img)
}

} // verus!
