//! PNG output optimization: deciding which files qualify, and the call
//! into the oxipng optimizer, whose result is named as a function of the
//! input bytes.

use vstd::prelude::*;
use vstd::string::*;

use crate::text::{clone_bytes, file_extension, spec_file_extension};

verus! {

/// The extension spells "png", in any letter case.
pub open spec fn ext_is_png(e: Seq<char>) -> bool {
    e.len() == 3 && (e[0] == 'p' || e[0] == 'P') && (e[1] == 'n' || e[1] == 'N') && (e[2] == 'g'
        || e[2] == 'G')
}

/// Optimization applies exactly to files with a "png" extension, and only
/// when the flag asks for it.
pub open spec fn spec_should_optimize(path: Seq<char>, optimize_flag: bool) -> bool {
    optimize_flag && match spec_file_extension(path) {
        Some(e) => ext_is_png(e),
        None => false,
    }
}

/// Whether the file at `path` should go through the PNG optimizer.
pub fn should_optimize(path: &str, optimize_flag: bool) -> (r: bool)
    ensures
        r == spec_should_optimize(path@, optimize_flag),
{
    if !optimize_flag {
        return false;
    }
    match file_extension(path) {
        None => false,
        Some(e) => {
            let es = e.as_str();
            if es.unicode_len() != 3 {
                false
            } else {
                let c0 = es.get_char(0);
                let c1 = es.get_char(1);
                let c2 = es.get_char(2);
                (c0 == 'p' || c0 == 'P') && (c1 == 'n' || c1 == 'N') && (c2 == 'g' || c2 == 'G')
            }
        },
    }
}

/// What the oxipng optimizer makes of a PNG stream with default options:
/// `None` when it reports an error. The result depends on the bytes alone.
pub uninterp spec fn optimized_png(bytes: Seq<u8>) -> Option<Seq<u8>>;

/// Relies on oxipng::optimize_from_memory with Options::default: the
/// optimized stream is a function of the input bytes.
#[verifier::external_body]
fn oxipng_optimize(data: &Vec<u8>) -> (r: Option<Vec<u8>>)
    ensures
        r is Some <==> optimized_png(data@) is Some,
        r is Some ==> r->0@ == optimized_png(data@)->0,
{
    match oxipng::optimize_from_memory(data, &oxipng::Options::default()) {
        Ok(optimized) => Some(optimized),
        Err(_) => None,
    }
}

/// Run a PNG stream through the optimizer; when the optimizer reports an
/// error the input passes through unchanged.
pub fn optimize_png(data: &Vec<u8>) -> (r: Vec<u8>)
    ensures
        r@ == match optimized_png(data@) {
            Some(v) => v,
            None => data@,
        },
{
    match oxipng_optimize(data) {
        Some(v) => v,
        None => clone_bytes(data),
    }
}

} // verus!
