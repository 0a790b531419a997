//! FileSystem mount options.

use crate::codepage_ascii::Codepage;
use vstd::prelude::*;

verus! {

/// The clock that the filesystem uses unless told otherwise.
#[derive(Debug, Default, Clone, Copy)]
pub struct DefaultClock;

/// FileSystem mount options
#[derive(Debug)]
pub struct FSOptions<C> {
    pub(crate) clock: C,
    pub(crate) codepage: Codepage,
    pub(crate) update_file_fields: bool,
}

impl<C> FSOptions<C> {
    /// The clock of the filesystem.
    pub closed spec fn clock_spec(&self) -> C {
        self.clock
    }

    /// The codepage of the filesystem.
    pub closed spec fn codepage_spec(&self) -> Codepage {
        self.codepage
    }

    /// Whether the last accessed/modified file fields are updated.
    pub closed spec fn update_file_fields_spec(&self) -> bool {
        self.update_file_fields
    }

    /// Set the codepage to be used by the filesystem
    pub fn set_codepage(&mut self, codepage: Codepage)
        ensures
            final(self).codepage_spec() == codepage,
            final(self).clock_spec() == old(self).clock_spec(),
            final(self).update_file_fields_spec() == old(self).update_file_fields_spec(),
    {
        self.codepage = codepage
    }

    /// Set the codepage to be used by the filesystem (chainable)
    pub fn with_codepage(self, codepage: Codepage) -> (r: Self)
        ensures
            r.codepage_spec() == codepage,
            r.clock_spec() == self.clock_spec(),
            r.update_file_fields_spec() == self.update_file_fields_spec(),
    {
        let mut options = self;
        options.set_codepage(codepage);

        options
    }

    /// Whether to update the last accessed/modified file fields
    pub fn set_update_file_fields(&mut self, update: bool)
        ensures
            final(self).update_file_fields_spec() == update,
            final(self).clock_spec() == old(self).clock_spec(),
            final(self).codepage_spec() == old(self).codepage_spec(),
    {
        self.update_file_fields = update
    }

    /// Whether to update the last accessed/modified file fields (chainable)
    pub fn with_update_file_fields(self, update: bool) -> (r: Self)
        ensures
            r.update_file_fields_spec() == update,
            r.clock_spec() == self.clock_spec(),
            r.codepage_spec() == self.codepage_spec(),
    {
        let mut options = self;
        options.update_file_fields = update;

        options
    }
}

impl FSOptions<DefaultClock> {
    /// Create a new options struct with the default options
    ///
    /// This is just an alias to [`Self::default`]
    #[inline]
    pub fn new() -> (r: Self)
        ensures
            r.clock_spec() == DefaultClock,
            r.codepage_spec() == Codepage,
            !r.update_file_fields_spec(),
    {
        Self::default()
    }
}

impl Default for FSOptions<DefaultClock> {
    fn default() -> (r: Self)
        ensures
            r.clock_spec() == DefaultClock,
            r.codepage_spec() == Codepage,
            !r.update_file_fields_spec(),
    {
        Self { clock: DefaultClock, codepage: Codepage, update_file_fields: false }
    }
}

} // verus!
