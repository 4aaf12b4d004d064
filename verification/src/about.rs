//! What the gateway says about itself: its build and the notice pages it
//! serves.
use crate::wire::{canonical_u64, parse_u64};
use vstd::prelude::*;
use vstd::string::StringSliceAdditionalSpecFns;

verus! {

/// The identity of a build.
#[derive(Clone, Debug)]
pub struct BuildInfo {
    pub app_version: &'static str,
    pub source_revision: &'static str,
    pub target: &'static str,
    pub index_compatibility: &'static str,
    pub renderd_compatibility: &'static str,
}

/// A notice page number: at most ten canonical decimal digits that fit a
/// `usize`.
pub open spec fn page_number(s: Seq<u8>) -> Option<usize> {
    if s.len() <= 10 {
        match canonical_u64(s) {
            Some(v) => if v <= usize::MAX {
                Some(v as usize)
            } else {
                None
            },
            None => None,
        }
    } else {
        None
    }
}

pub fn notice_page(s: &str) -> (r: Result<usize, &'static str>)
    ensures
        match page_number(s.spec_bytes()) {
            Some(v) => r == Ok::<usize, &'static str>(v),
            None => r == Err::<usize, &'static str>("invalid_notice_page"),
        },
{
    let b = s.as_bytes();
    if b.len() > 10 {
        return Err("invalid_notice_page");
    }
    match parse_u64(b) {
        Some(v) => if v <= usize::MAX as u64 {
            Ok(v as usize)
        } else {
            Err("invalid_notice_page")
        },
        None => Err("invalid_notice_page"),
    }
}

} // verus!
