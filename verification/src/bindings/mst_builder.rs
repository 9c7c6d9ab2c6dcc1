//! The builder as other languages see it.
use crate::error::MstError;
use crate::mst::builder::{registered, BuilderView, SourceView};
use crate::mst::header::MstCompilers;
use crate::mst::{MstPlatformKnown, MstVersionKnown};
use vstd::prelude::*;

verus! {

/// A builder whose operations take plain values and report errors.
#[derive(Debug)]
pub struct MstBuilder {
    pub inner: crate::mst::builder::MstBuilder,
}

/// The time stamp that a number from another language stands for: none for
/// zero, and else the number.
pub open spec fn stamp_of(timestamp: u32) -> Option<u32> {
    if timestamp == 0 {
        None
    } else {
        Some(timestamp)
    }
}

impl MstBuilder {
    /// A builder without entries for an archive of `version` on `platform`
    /// with the given compiler stamps. This never fails.
    pub fn new(version: MstVersionKnown, platform: MstPlatformKnown, compilers: MstCompilers) -> (
        builder: Result<Self, MstError>
    )
        ensures
            builder is Ok,
            builder->Ok_0.inner@ == (BuilderView { platform, version, compilers, entries: Seq::empty() }),
            builder->Ok_0.inner.well_formed(),
    {
        Ok(Self { inner: crate::mst::builder::MstBuilder::new(version, platform, compilers) })
    }

    /// Registers the bytes of `data` as the content of the entry `path`. A
    /// time stamp of zero stands for the time of writing. This never fails.
    pub fn add_entry_memory(&mut self, path: String, data: Vec<u8>, timestamp: u32) -> (done: Result<
        (),
        MstError,
    >)
        ensures
            done is Ok,
            final(self).inner@ == (BuilderView {
                entries: registered(
                    old(self).inner@.entries,
                    path@,
                    SourceView::Memory { data: data@, timestamp: stamp_of(timestamp) },
                ),
                ..old(self).inner@
            }),
            old(self).inner.well_formed() ==> final(self).inner.well_formed(),
    {
        self.inner.add_entry_memory(
            path,
            data,
            if timestamp == 0 {
                None
            } else {
                Some(timestamp)
            },
        );
        Ok(())
    }
}

} // verus!
