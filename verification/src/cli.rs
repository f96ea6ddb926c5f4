//! The command-line configuration model: the switches a run was invoked
//! with, as plain values, and the decisions derived from them. Parsing the
//! command line itself is left to the program around the library.

use vstd::prelude::*;

verus! {

/// The compression level used when no level switch is given.
pub const DEFAULT_COMPRESSION_LEVEL: u32 = 6;

/// The switches of one run.
pub struct Args {
    /// Convert end-of-lines to local OS conventions.
    pub ascii: bool,
    /// Write to standard output.
    pub to_stdout: bool,
    /// Decompress instead of compressing.
    pub decompress: bool,
    /// Don't ask questions, compress links.
    pub force: bool,
    /// Keep (don't delete) input files.
    pub keep: bool,
    /// Save or restore the original name and timestamp.
    pub name: bool,
    /// Don't save or restore the original file name and timestamp.
    pub no_name: bool,
    /// Don't save or restore the original file time.
    pub no_time: bool,
    /// Save or restore the original modification time.
    pub time: bool,
    /// Recurse through directories.
    pub recursive: bool,
    /// List the file contents.
    pub list: bool,
    /// Be verbose.
    pub verbose: bool,
    /// Be very quiet.
    pub quiet: bool,
    /// Test archive integrity.
    pub test: bool,
    /// The nine level switches; the first one set wins.
    pub level_1: bool,
    pub level_2: bool,
    pub level_3: bool,
    pub level_4: bool,
    pub level_5: bool,
    pub level_6: bool,
    pub level_7: bool,
    pub level_8: bool,
    pub level_9: bool,
    /// Suffix for compressed files.
    pub suffix: String,
    /// Make an rsync-friendly archive.
    pub rsyncable: bool,
    /// Synchronous output.
    pub synchronous: bool,
}

impl Args {
    /// The compression level the switches pick: the lowest level switch
    /// set, or the default when none is.
    pub fn compression_level(&self) -> (r: u32)
        ensures
            r == if self.level_1 {
                1u32
            } else if self.level_2 {
                2u32
            } else if self.level_3 {
                3u32
            } else if self.level_4 {
                4u32
            } else if self.level_5 {
                5u32
            } else if self.level_6 {
                6u32
            } else if self.level_7 {
                7u32
            } else if self.level_8 {
                8u32
            } else if self.level_9 {
                9u32
            } else {
                DEFAULT_COMPRESSION_LEVEL
            },
            1 <= r <= 9,
    {
        if self.level_1 {
            1
        } else if self.level_2 {
            2
        } else if self.level_3 {
            3
        } else if self.level_4 {
            4
        } else if self.level_5 {
            5
        } else if self.level_6 {
            6
        } else if self.level_7 {
            7
        } else if self.level_8 {
            8
        } else if self.level_9 {
            9
        } else {
            DEFAULT_COMPRESSION_LEVEL
        }
    }
}

impl Default for Args {
    /// Every switch off, the suffix empty.
    fn default() -> (r: Args)
        ensures
            !r.ascii && !r.to_stdout && !r.decompress && !r.force && !r.keep,
            !r.name && !r.no_name && !r.no_time && !r.time,
            !r.recursive && !r.list && !r.verbose && !r.quiet && !r.test,
            !r.level_1 && !r.level_2 && !r.level_3 && !r.level_4 && !r.level_5,
            !r.level_6 && !r.level_7 && !r.level_8 && !r.level_9,
            r.suffix@ == Seq::<char>::empty(),
            !r.rsyncable && !r.synchronous,
    {
        Args {
            ascii: false,
            to_stdout: false,
            decompress: false,
            force: false,
            keep: false,
            name: false,
            no_name: false,
            no_time: false,
            time: false,
            recursive: false,
            list: false,
            verbose: false,
            quiet: false,
            test: false,
            level_1: false,
            level_2: false,
            level_3: false,
            level_4: false,
            level_5: false,
            level_6: false,
            level_7: false,
            level_8: false,
            level_9: false,
            suffix: String::new(),
            rsyncable: false,
            synchronous: false,
        }
    }
}

} // verus!
