//! What kind of input a path holds, from its extension or its first bytes.
use vstd::prelude::*;
use vstd::string::StringExecFns;

verus! {

#[derive(Debug, Clone, Copy)]
pub enum InputFileType {
    Project,
    GeneralAudio(&'static str),
    Wem,
    Bnk,
    Pck,
}

/// Whether two inputs can be handled in one run.
pub open spec fn similar(a: InputFileType, b: InputFileType) -> bool {
    match (a, b) {
        (InputFileType::GeneralAudio(_), InputFileType::GeneralAudio(_)) => true,
        (InputFileType::Wem, InputFileType::Wem) => true,
        (InputFileType::Bnk, InputFileType::Bnk) => true,
        (InputFileType::Pck, InputFileType::Pck) => true,
        _ => false,
    }
}

/// The audio extensions that are read as general audio.
pub open spec fn is_audio_extension(ext: Seq<char>) -> bool {
    ext == "wav"@ || ext == "ogg"@ || ext == "aac"@ || ext == "flac"@ || ext == "mp3"@
}

fn same_text(a: &str, b: &str) -> (r: bool)
    ensures
        r == (a@ == b@),
{
    String::from_str(a) == String::from_str(b)
}

impl InputFileType {
    pub fn similar_to(&self, other: &Self) -> (r: bool)
        ensures
            r == similar(*self, *other),
    {
        match (self, other) {
            (InputFileType::GeneralAudio(_), InputFileType::GeneralAudio(_)) => true,
            (InputFileType::Wem, InputFileType::Wem) => true,
            (InputFileType::Bnk, InputFileType::Bnk) => true,
            (InputFileType::Pck, InputFileType::Pck) => true,
            _ => false,
        }
    }

    /// The kind of a file with extension `ext`, where the extension names a
    /// general audio format.
    pub fn from_extension(ext: &str) -> (r: Option<InputFileType>)
        ensures
            is_audio_extension(ext@) ==> (r matches Some(InputFileType::GeneralAudio(e)) && e@
                == ext@),
            !is_audio_extension(ext@) ==> r is None,
    {
        let known: [&'static str; 5] = ["wav", "ogg", "aac", "flac", "mp3"];
        let mut i: usize = 0;
        while i < 5
            invariant
                known@ == seq!["wav", "ogg", "aac", "flac", "mp3"],
                0 <= i <= 5,
                forall|j: int| 0 <= j < i ==> ext@ != (#[trigger] known@[j])@,
            decreases 5 - i,
        {
            if same_text(ext, known[i]) {
                return Some(InputFileType::GeneralAudio(known[i]));
            }
            i = i + 1;
        }
        assert(ext@ != known@[0]@ && ext@ != known@[1]@ && ext@ != known@[2]@ && ext@ != known@[3]@
            && ext@ != known@[4]@);
        None
    }

    /// The kind of a file whose first four bytes are `magic`: a sound bank, a
    /// package, or a single audio asset.
    pub fn from_magic(magic: [u8; 4]) -> (r: Option<InputFileType>)
        ensures
            magic@ == seq![0x42u8, 0x4bu8, 0x48u8, 0x44u8] ==> r matches Some(InputFileType::Bnk),
            magic@ == seq![0x41u8, 0x4bu8, 0x50u8, 0x4bu8] ==> r matches Some(InputFileType::Pck),
            magic@ == seq![0x52u8, 0x49u8, 0x46u8, 0x46u8] ==> r matches Some(InputFileType::Wem),
            magic@ != seq![0x42u8, 0x4bu8, 0x48u8, 0x44u8] && magic@ != seq![0x41u8, 0x4bu8, 0x50u8, 0x4bu8]
                && magic@ != seq![0x52u8, 0x49u8, 0x46u8, 0x46u8] ==> r is None,
    {
        if magic[0] == 0x42 && magic[1] == 0x4b && magic[2] == 0x48 && magic[3] == 0x44 {
            assert(magic@ =~= seq![0x42u8, 0x4bu8, 0x48u8, 0x44u8]);
            Some(InputFileType::Bnk)
        } else if magic[0] == 0x41 && magic[1] == 0x4b && magic[2] == 0x50 && magic[3] == 0x4b {
            assert(magic@ =~= seq![0x41u8, 0x4bu8, 0x50u8, 0x4bu8]);
            Some(InputFileType::Pck)
        } else if magic[0] == 0x52 && magic[1] == 0x49 && magic[2] == 0x46 && magic[3] == 0x46 {
            assert(magic@ =~= seq![0x52u8, 0x49u8, 0x46u8, 0x46u8]);
            Some(InputFileType::Wem)
        } else {
            assert(magic@[0] == magic[0] && magic@[1] == magic[1] && magic@[2] == magic[2] && magic@[3] == magic[3]);
            None
        }
    }
}

} // verus!
