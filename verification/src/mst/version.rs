//! The packed version word: three version numbers and five flag bits.
//!
//! From the least significant bit: eight bits of patch number, eight of minor
//! version, eight of major version, then the flags Xbox (bit 24), PC (26),
//! tools build (27), GameCube (28) and PlayStation 2 (29). Bits 25, 30 and 31
//! have no meaning and are kept as they are.
use crate::error::MstError;
use vstd::prelude::*;
use vstd::std_specs::convert::TryFromSpecImpl;

verus! {

/// Bit 24: the archive is for the Xbox.
pub const XBOX_BIT: u32 = 24;

/// Bit 26: the archive is for the PC.
pub const PC_BIT: u32 = 26;

/// Bit 27: the archive was made by the tools build.
pub const TOOLS_BIT: u32 = 27;

/// Bit 28: the archive is for the GameCube.
pub const GC_BIT: u32 = 28;

/// Bit 29: the archive is for the PlayStation 2.
pub const PS2_BIT: u32 = 29;

/// The patch number of a version word.
pub open spec fn patch_of(word: u32) -> u8 {
    (word & 0xff) as u8
}

/// The minor version of a version word.
pub open spec fn minor_of(word: u32) -> u8 {
    ((word >> 8) & 0xff) as u8
}

/// The major version of a version word.
pub open spec fn major_of(word: u32) -> u8 {
    ((word >> 16) & 0xff) as u8
}

/// Bit `bit` of a version word, as 0 or 1.
pub open spec fn flag_of(word: u32, bit: u32) -> u8 {
    ((word >> bit) & 1) as u8
}

/// The word with another patch number.
pub open spec fn with_patch(word: u32, patch: u8) -> u32 {
    (word & 0xffff_ff00) | (patch as u32)
}

/// The word with another minor version.
pub open spec fn with_minor(word: u32, minor: u8) -> u32 {
    (word & 0xffff_00ff) | ((minor as u32) << 8)
}

/// The word with another major version.
pub open spec fn with_major(word: u32, major: u8) -> u32 {
    (word & 0xff00_ffff) | ((major as u32) << 16)
}

/// The word with bit `bit` set to `value`, which is 0 or 1.
pub open spec fn with_flag(word: u32, bit: u32, value: u8) -> u32 {
    (word & !(1u32 << bit)) | ((value as u32) << bit)
}

/// A field that was set reads as what it was set to.
pub proof fn lemma_set_then_get(word: u32, value: u8, bit: u32)
    by (bit_vector)
    requires
        bit < 32,
    ensures
        patch_of(with_patch(word, value)) == value,
        minor_of(with_minor(word, value)) == value,
        major_of(with_major(word, value)) == value,
        value <= 1 ==> flag_of(with_flag(word, bit, value), bit) == value,
{
}

/// Setting the minor version changes no other field, and setting it to what
/// it is changes nothing.
pub proof fn lemma_minor_alone(word: u32, value: u8, bit: u32)
    by (bit_vector)
    requires
        24 <= bit < 32,
    ensures
        patch_of(with_minor(word, value)) == patch_of(word),
        major_of(with_minor(word, value)) == major_of(word),
        flag_of(with_minor(word, value), bit) == flag_of(word, bit),
        with_minor(with_minor(word, value), minor_of(word)) == word,
        with_minor(word, minor_of(word)) == word,
{
}

/// Setting the major version or the patch number changes no other field.
pub proof fn lemma_major_patch_alone(word: u32, value: u8, bit: u32)
    by (bit_vector)
    requires
        24 <= bit < 32,
    ensures
        patch_of(with_major(word, value)) == patch_of(word),
        minor_of(with_major(word, value)) == minor_of(word),
        flag_of(with_major(word, value), bit) == flag_of(word, bit),
        minor_of(with_patch(word, value)) == minor_of(word),
        major_of(with_patch(word, value)) == major_of(word),
        flag_of(with_patch(word, value), bit) == flag_of(word, bit),
{
}

/// Setting a flag changes no version number and no other flag.
pub proof fn lemma_flag_alone(word: u32, bit: u32, value: u8, other: u32)
    by (bit_vector)
    requires
        24 <= bit < 32,
        24 <= other < 32,
        other != bit,
        value <= 1,
    ensures
        patch_of(with_flag(word, bit, value)) == patch_of(word),
        minor_of(with_flag(word, bit, value)) == minor_of(word),
        major_of(with_flag(word, bit, value)) == major_of(word),
        flag_of(with_flag(word, bit, value), other) == flag_of(word, other),
{
}

/// The packed version word of an archive.
#[derive(Clone, Copy, Debug)]
pub struct MstVersion {
    pub word: u32,
}

/// One of the four table revisions that this library knows.
#[derive(Debug, Clone, Copy, PartialEq, Eq, Structural)]
pub enum MstVersionKnown {
    /// Version 1.8.0 with the PlayStation 2 flag: names of 20 bytes.
    V180PS2,
    /// Version 1.8.0 without that flag.
    V180,
    /// Version 1.7.0.
    V170,
    /// Version 1.6.0.
    V160,
}

/// One of the four platforms that this library knows.
#[derive(Debug, Clone, Copy, PartialEq, Eq, Structural)]
pub enum MstPlatformKnown {
    Xbox,
    PC,
    GameCube,
    PlayStation2,
}

/// The revision that a version word names: 1.8.0 with or without the
/// PlayStation 2 flag, 1.7.0 or 1.6.0, whatever the other flags are. Every
/// other word is unknown.
pub open spec fn classify(word: u32) -> Result<MstVersionKnown, MstError> {
    if major_of(word) == 1 && minor_of(word) == 8 && patch_of(word) == 0 {
        if flag_of(word, PS2_BIT) > 0 {
            Ok(MstVersionKnown::V180PS2)
        } else {
            Ok(MstVersionKnown::V180)
        }
    } else if major_of(word) == 1 && minor_of(word) == 7 && patch_of(word) == 0 {
        Ok(MstVersionKnown::V170)
    } else if major_of(word) == 1 && minor_of(word) == 6 && patch_of(word) == 0 {
        Ok(MstVersionKnown::V160)
    } else {
        Err(MstError::UnknownVersion)
    }
}

/// The platform that a version word names. Where several platform flags are
/// set, the first of Xbox, PC, GameCube and PlayStation 2 decides; where none
/// is set, the platform is unknown.
pub open spec fn classify_platform(word: u32) -> Result<MstPlatformKnown, MstError> {
    if flag_of(word, XBOX_BIT) > 0 {
        Ok(MstPlatformKnown::Xbox)
    } else if flag_of(word, PC_BIT) > 0 {
        Ok(MstPlatformKnown::PC)
    } else if flag_of(word, GC_BIT) > 0 {
        Ok(MstPlatformKnown::GameCube)
    } else if flag_of(word, PS2_BIT) > 0 {
        Ok(MstPlatformKnown::PlayStation2)
    } else {
        Err(MstError::UnknownPlatform)
    }
}

/// The width in bytes of the name field of the entries that follow a version
/// word: 20 where the PlayStation 2 flag is set and the version is 1.8, and
/// else 16.
pub open spec fn name_width(word: u32) -> nat {
    if flag_of(word, PS2_BIT) > 0 && major_of(word) == 1 && minor_of(word) == 8 {
        20
    } else {
        16
    }
}

/// The minor version of a known revision.
pub open spec fn minor_for(version: MstVersionKnown) -> u8 {
    match version {
        MstVersionKnown::V180PS2 => 8,
        MstVersionKnown::V180 => 8,
        MstVersionKnown::V170 => 7,
        MstVersionKnown::V160 => 6,
    }
}

/// The flag bit of a known platform.
pub open spec fn bit_for(platform: MstPlatformKnown) -> u32 {
    match platform {
        MstPlatformKnown::Xbox => XBOX_BIT,
        MstPlatformKnown::PC => PC_BIT,
        MstPlatformKnown::GameCube => GC_BIT,
        MstPlatformKnown::PlayStation2 => PS2_BIT,
    }
}

/// The version word that is made for a revision and a platform: major
/// version 1, the revision's minor version, patch 0, the tools flag and the
/// platform's flag.
pub open spec fn known_word(version: MstVersionKnown, platform: MstPlatformKnown) -> u32 {
    with_flag(
        with_minor(with_major(with_flag(0, TOOLS_BIT, 1), 1), minor_for(version)),
        bit_for(platform),
        1,
    )
}

/// The fields of the word that is made for a minor version and a platform bit.
pub proof fn lemma_known_word_fields(minor: u8, bit: u32, other: u32)
    by (bit_vector)
    requires
        bit == 24 || bit == 26 || bit == 28 || bit == 29,
        24 <= other < 32,
    ensures
        major_of(with_flag(with_minor(with_major(with_flag(0, 27, 1), 1), minor), bit, 1)) == 1,
        minor_of(with_flag(with_minor(with_major(with_flag(0, 27, 1), 1), minor), bit, 1))
            == minor,
        patch_of(with_flag(with_minor(with_major(with_flag(0, 27, 1), 1), minor), bit, 1)) == 0,
        flag_of(with_flag(with_minor(with_major(with_flag(0, 27, 1), 1), minor), bit, 1), other)
            == (if other == bit || other == 27 {
            1u8
        } else {
            0u8
        }),
{
}

/// The revision of a known version word after its minor version was set to
/// that of `version`: `version` itself, but that the PlayStation 2 flag
/// decides between the two revisions of version 1.8.0. Setting the minor
/// version back restores the word.
pub proof fn lemma_classify_with_minor(word: u32, version: MstVersionKnown)
    requires
        classify(word) is Ok,
    ensures
        classify(with_minor(word, minor_for(version))) == Ok::<MstVersionKnown, MstError>(
            match version {
                MstVersionKnown::V170 => MstVersionKnown::V170,
                MstVersionKnown::V160 => MstVersionKnown::V160,
                _ => if flag_of(word, PS2_BIT) > 0 {
                    MstVersionKnown::V180PS2
                } else {
                    MstVersionKnown::V180
                },
            },
        ),
        with_minor(with_minor(word, minor_for(version)), minor_of(word)) == word,
        with_minor(word, minor_of(word)) == word,
        classify(word)->Ok_0 == MstVersionKnown::V180PS2 <==> minor_of(word) == 8 && flag_of(
            word,
            PS2_BIT,
        ) > 0,
        minor_of(word) == minor_for(classify(word)->Ok_0),
{
    lemma_minor_alone(word, minor_for(version), PS2_BIT);
    lemma_set_then_get(word, minor_for(version), 0);
}

impl MstVersion {
    /// The version whose word is zero.
    pub fn new() -> (version: Self)
        ensures
            version.word == 0,
    {
        MstVersion { word: 0 }
    }

    /// The version that a packed word holds. Every word is a version.
    pub fn parse(word: u32) -> (version: Self)
        ensures
            version.word == word,
    {
        MstVersion { word }
    }

    /// The version whose word is stored, least significant byte first, in `bytes`.
    pub fn from_bytes(bytes: [u8; 4]) -> (version: Self)
        ensures
            version.word == crate::codec::u32_of(bytes@, true),
    {
        MstVersion { word: crate::codec::get_u32(bytes.as_slice(), 0, true) }
    }

    /// The four bytes of the word, least significant byte first.
    pub fn into_bytes(self) -> (bytes: [u8; 4])
        ensures
            bytes@ == crate::codec::u32_bytes(self.word, true),
    {
        let (b0, b1, b2, b3) = crate::codec::split_u32(self.word);
        let bytes = [b0, b1, b2, b3];
        assert(bytes@ =~= crate::codec::u32_bytes(self.word, true));
        bytes
    }

    /// The packed word.
    pub fn word(&self) -> (word: u32)
        ensures
            word == self.word,
    {
        self.word
    }

    /// The patch number.
    pub fn patch(&self) -> (patch: u8)
        ensures
            patch == patch_of(self.word),
    {
        #[verifier::truncate]
        ((self.word & 0xff) as u8)
    }

    /// The minor version.
    pub fn minor(&self) -> (minor: u8)
        ensures
            minor == minor_of(self.word),
    {
        #[verifier::truncate]
        (((self.word >> 8) & 0xff) as u8)
    }

    /// The major version.
    pub fn major(&self) -> (major: u8)
        ensures
            major == major_of(self.word),
    {
        #[verifier::truncate]
        (((self.word >> 16) & 0xff) as u8)
    }

    /// The Xbox flag, 0 or 1.
    pub fn xbox(&self) -> (flag: u8)
        ensures
            flag == flag_of(self.word, XBOX_BIT),
    {
        #[verifier::truncate]
        (((self.word >> 24) & 1) as u8)
    }

    /// The PC flag, 0 or 1.
    pub fn pc(&self) -> (flag: u8)
        ensures
            flag == flag_of(self.word, PC_BIT),
    {
        #[verifier::truncate]
        (((self.word >> 26) & 1) as u8)
    }

    /// The tools-build flag, 0 or 1.
    pub fn tools(&self) -> (flag: u8)
        ensures
            flag == flag_of(self.word, TOOLS_BIT),
    {
        #[verifier::truncate]
        (((self.word >> 27) & 1) as u8)
    }

    /// The GameCube flag, 0 or 1.
    pub fn gc(&self) -> (flag: u8)
        ensures
            flag == flag_of(self.word, GC_BIT),
    {
        #[verifier::truncate]
        (((self.word >> 28) & 1) as u8)
    }

    /// The PlayStation 2 flag, 0 or 1.
    pub fn ps2(&self) -> (flag: u8)
        ensures
            flag == flag_of(self.word, PS2_BIT),
    {
        #[verifier::truncate]
        (((self.word >> 29) & 1) as u8)
    }

    /// The width in bytes of the name field of the entries: 20 where the
    /// PlayStation 2 flag is set and the version is 1.8, and else 16. For a
    /// known version that is 20 exactly for the revision `V180PS2`.
    pub fn entry_name_length(&self) -> (width: usize)
        ensures
            width == name_width(self.word),
            classify(self.word) is Ok ==> (width == 20 <==> classify(self.word)
                == Ok::<MstVersionKnown, MstError>(MstVersionKnown::V180PS2)),
    {
        if self.ps2() > 0 && self.major() == 1 && self.minor() == 8 {
            20
        } else {
            16
        }
    }

    /// Sets the patch number.
    pub fn set_patch(&mut self, patch: u8)
        ensures
            final(self).word == with_patch(old(self).word, patch),
    {
        self.word = (self.word & 0xffff_ff00) | (patch as u32);
    }

    /// Sets the minor version.
    pub fn set_minor(&mut self, minor: u8)
        ensures
            final(self).word == with_minor(old(self).word, minor),
    {
        self.word = (self.word & 0xffff_00ff) | ((minor as u32) << 8);
    }

    /// Sets the major version.
    pub fn set_major(&mut self, major: u8)
        ensures
            final(self).word == with_major(old(self).word, major),
    {
        self.word = (self.word & 0xff00_ffff) | ((major as u32) << 16);
    }

    /// Sets the flag at `bit` to `value`.
    fn set_flag(&mut self, bit: u32, value: u8)
        requires
            bit < 32,
            value <= 1,
        ensures
            final(self).word == with_flag(old(self).word, bit, value),
    {
        self.word = (self.word & !(1u32 << bit)) | ((value as u32) << bit);
    }

    /// Sets the Xbox flag to `flag`, which is 0 or 1.
    pub fn set_xbox(&mut self, flag: u8)
        requires
            flag <= 1,
        ensures
            final(self).word == with_flag(old(self).word, XBOX_BIT, flag),
    {
        self.set_flag(XBOX_BIT, flag);
    }

    /// Sets the PC flag to `flag`, which is 0 or 1.
    pub fn set_pc(&mut self, flag: u8)
        requires
            flag <= 1,
        ensures
            final(self).word == with_flag(old(self).word, PC_BIT, flag),
    {
        self.set_flag(PC_BIT, flag);
    }

    /// Sets the tools-build flag to `flag`, which is 0 or 1.
    pub fn set_tools(&mut self, flag: u8)
        requires
            flag <= 1,
        ensures
            final(self).word == with_flag(old(self).word, TOOLS_BIT, flag),
    {
        self.set_flag(TOOLS_BIT, flag);
    }

    /// Sets the GameCube flag to `flag`, which is 0 or 1.
    pub fn set_gc(&mut self, flag: u8)
        requires
            flag <= 1,
        ensures
            final(self).word == with_flag(old(self).word, GC_BIT, flag),
    {
        self.set_flag(GC_BIT, flag);
    }

    /// Sets the PlayStation 2 flag to `flag`, which is 0 or 1.
    pub fn set_ps2(&mut self, flag: u8)
        requires
            flag <= 1,
        ensures
            final(self).word == with_flag(old(self).word, PS2_BIT, flag),
    {
        self.set_flag(PS2_BIT, flag);
    }

    /// The version word for a revision on a platform: version 1, the
    /// revision's minor version, patch 0, the tools flag and the platform's
    /// flag.
    pub fn from_known(version: MstVersionKnown, platform: MstPlatformKnown) -> (result: Self)
        ensures
            result.word == known_word(version, platform),
            major_of(result.word) == 1,
            minor_of(result.word) == minor_for(version),
            patch_of(result.word) == 0,
            flag_of(result.word, TOOLS_BIT) == 1,
            classify_platform(result.word) == Ok::<MstPlatformKnown, MstError>(platform),
            classify(result.word) == Ok::<MstVersionKnown, MstError>(
                match version {
                    MstVersionKnown::V170 => MstVersionKnown::V170,
                    MstVersionKnown::V160 => MstVersionKnown::V160,
                    _ => if platform == MstPlatformKnown::PlayStation2 {
                        MstVersionKnown::V180PS2
                    } else {
                        MstVersionKnown::V180
                    },
                },
            ),
    {
        let mut result = Self::new();
        result.set_tools(1);
        result.set_major(1);
        match version {
            MstVersionKnown::V180PS2 | MstVersionKnown::V180 => {
                result.set_minor(8);
            },
            MstVersionKnown::V170 => {
                result.set_minor(7);
            },
            MstVersionKnown::V160 => {
                result.set_minor(6);
            },
        }
        match platform {
            MstPlatformKnown::Xbox => {
                result.set_xbox(1);
            },
            MstPlatformKnown::PC => {
                result.set_pc(1);
            },
            MstPlatformKnown::GameCube => {
                result.set_gc(1);
            },
            MstPlatformKnown::PlayStation2 => {
                result.set_ps2(1);
            },
        }
        proof {
            let minor = minor_for(version);
            let bit = bit_for(platform);
            lemma_known_word_fields(minor, bit, XBOX_BIT);
            lemma_known_word_fields(minor, bit, PC_BIT);
            lemma_known_word_fields(minor, bit, TOOLS_BIT);
            lemma_known_word_fields(minor, bit, GC_BIT);
            lemma_known_word_fields(minor, bit, PS2_BIT);
        }
        result
    }
}

impl TryFrom<&MstVersion> for MstVersionKnown {
    type Error = MstError;

    /// The known revision that the version word names, or `UnknownVersion`.
    fn try_from(mst_version: &MstVersion) -> (known: Result<Self, MstError>) {
        let major = mst_version.major();
        let minor = mst_version.minor();
        let patch = mst_version.patch();
        if major == 1 && minor == 8 && patch == 0 {
            if mst_version.ps2() > 0 {
                Ok(MstVersionKnown::V180PS2)
            } else {
                Ok(MstVersionKnown::V180)
            }
        } else if major == 1 && minor == 7 && patch == 0 {
            Ok(MstVersionKnown::V170)
        } else if major == 1 && minor == 6 && patch == 0 {
            Ok(MstVersionKnown::V160)
        } else {
            Err(MstError::UnknownVersion)
        }
    }
}

impl TryFromSpecImpl<&MstVersion> for MstVersionKnown {
    open spec fn obeys_try_from_spec() -> bool {
        true
    }

    open spec fn try_from_spec(mst_version: &MstVersion) -> Result<Self, MstError> {
        classify(mst_version.word)
    }
}

impl TryFrom<&MstVersion> for MstPlatformKnown {
    type Error = MstError;

    /// The known platform that the version word names, or `UnknownPlatform`.
    fn try_from(mst_version: &MstVersion) -> (known: Result<Self, MstError>) {
        if mst_version.xbox() > 0 {
            return Ok(MstPlatformKnown::Xbox);
        }
        if mst_version.pc() > 0 {
            return Ok(MstPlatformKnown::PC);
        }
        if mst_version.gc() > 0 {
            return Ok(MstPlatformKnown::GameCube);
        }
        if mst_version.ps2() > 0 {
            return Ok(MstPlatformKnown::PlayStation2);
        }
        Err(MstError::UnknownPlatform)
    }
}

impl TryFromSpecImpl<&MstVersion> for MstPlatformKnown {
    open spec fn obeys_try_from_spec() -> bool {
        true
    }

    open spec fn try_from_spec(mst_version: &MstVersion) -> Result<Self, MstError> {
        classify_platform(mst_version.word)
    }
}

} // verus!
