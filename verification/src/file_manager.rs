//! Naming of scoped temporary audio files.
//!
//! The manager owns a directory path and mints unique `.mp3` file paths in
//! it; the application performs the actual writes.

use vstd::prelude::*;

verus! {

/// Mints unique audio file paths inside one temporary directory.
pub struct FileManager {
    temp_dir: String,
}

/// Relies on `uuid::Uuid::new_v4` and its hyphenated rendering: a random
/// identifier whose textual form is always 36 characters.  The value depends
/// on the random generator, so nothing more is assumed of it.
#[verifier::external_body]
fn new_uuid_string() -> (r: String)
    ensures
        r@.len() == 36,
{
    uuid::Uuid::new_v4().to_string()
}

impl FileManager {
    /// The directory the manager names files in.
    pub closed spec fn temp_dir_spec(&self) -> Seq<char> {
        self.temp_dir@
    }

    /// A manager for the given temporary directory (no trailing separator).
    pub fn new(temp_dir: &str) -> (m: FileManager)
        ensures
            m.temp_dir_spec() == temp_dir@,
    {
        FileManager { temp_dir: String::from_str(temp_dir) }
    }

    /// A fresh audio file path: the directory, a separator, a 36-character
    /// unique name, and the `.mp3` extension.
    pub fn create_temp_audio_file(&self) -> (p: String)
        ensures
            p@.len() == self.temp_dir_spec().len() + 41,
            p@.take(self.temp_dir_spec().len() as int + 1) == self.temp_dir_spec() + "/"@,
            p@.skip(p@.len() as int - 4) == ".mp3"@,
    {
        let mut p = self.temp_dir.clone();
        p.append("/");
        let name = new_uuid_string();
        p.append(name.as_str());
        p.append(".mp3");
        proof {
            reveal_strlit("/");
            reveal_strlit(".mp3");
            assert(p@.take(self.temp_dir_spec().len() as int + 1) =~= self.temp_dir_spec()
                + "/"@);
            assert(p@.skip(p@.len() as int - 4) =~= ".mp3"@);
        }
        p
    }
}

} // verus!
