//! What a command line asks for.

use crate::text::{to_glyphs, to_text, trim, Glyph};
use vstd::prelude::*;

verus! {

/// What a command line asks for.
#[derive(Debug)]
pub enum Command {
    /// The arguments do not suffice.
    Usage,
    /// Alignment of a transcript to audio.
    Align { model: String, audio: String, text: String, language: String },
    /// Transcription of audio, with a forced language or not.
    Transcribe { model: String, audio: String, forced_language: Option<String> },
}

/// Where a transcript is taken from.
#[derive(Debug)]
pub enum TextSource {
    /// The argument itself.
    Given(String),
    /// The file of this path.
    File(String),
}

/// Whether a command is what the arguments, the program first, ask for.
pub open spec fn is_command(c: &Command, args: Seq<String>) -> bool {
    if args.len() < 2 {
        c is Usage
    } else if args[1]@ == "align"@ {
        if args.len() < 6 {
            c is Usage
        } else {
            c matches Command::Align { model, audio, text, language } && model@ == args[2]@
                && audio@ == args[3]@ && text@ == args[4]@ && language@ == args[5]@
        }
    } else if args.len() < 3 {
        c is Usage
    } else {
        c matches Command::Transcribe { model, audio, forced_language } && model@ == args[1]@ && audio@
            == args[2]@ && match forced_language {
            Some(l) => args.len() > 3 && l@ == args[3]@,
            None => args.len() == 3,
        }
    }
}

/// Reads the arguments of the program, its name first.
pub fn parse_command(args: &Vec<String>) -> (res: Command)
    ensures
        is_command(&res, args@),
{
    if args.len() < 2 {
        return Command::Usage;
    }
    let align: String = "align".to_owned();
    if args[1] == align {
        if args.len() < 6 {
            return Command::Usage;
        }
        return Command::Align {
            model: args[2].clone(),
            audio: args[3].clone(),
            text: args[4].clone(),
            language: args[5].clone(),
        };
    }
    if args.len() < 3 {
        return Command::Usage;
    }
    let forced_language: Option<String> = if args.len() > 3 {
        Some(args[3].clone())
    } else {
        None
    };
    Command::Transcribe { model: args[1].clone(), audio: args[2].clone(), forced_language }
}

/// `align` and four arguments ask for an alignment of that model, audio, transcript and language,
/// whatever follows; with fewer arguments the usage is shown.
pub proof fn law_align_asks_for_an_alignment(
    c: &Command,
    program: String,
    align: String,
    given: Seq<String>,
)
    requires
        align@ == "align"@,
        is_command(c, seq![program, align] + given),
    ensures
        given.len() < 4 ==> c is Usage,
        given.len() >= 4 ==> (c matches Command::Align { model, audio, text, language } && model@
            == given[0]@ && audio@ == given[1]@ && text@ == given[2]@ && language@ == given[3]@),
{
    let args = seq![program, align] + given;
    assert(args[1] == align);
    if given.len() >= 4 {
        assert(args[2] == given[0] && args[3] == given[1] && args[4] == given[2] && args[5]
            == given[3]);
    }
}

/// Any other first argument is the model of a transcription, the second one the audio, and the
/// third one, if there is one, the language to force; without audio the usage is shown.
pub proof fn law_other_arguments_ask_for_a_transcription(
    c: &Command,
    program: String,
    first: String,
    more: Seq<String>,
)
    requires
        first@ != "align"@,
        is_command(c, seq![program, first] + more),
    ensures
        more.len() == 0 ==> c is Usage,
        more.len() > 0 ==> (c matches Command::Transcribe { model, audio, forced_language } && model@
            == first@ && audio@ == more[0]@ && (more.len() == 1 ==> forced_language is None) && (
        more.len() > 1 ==> (forced_language matches Some(l) && l@ == more[1]@))),
{
    let args = seq![program, first] + more;
    assert(args[1] == first);
    if more.len() > 0 {
        assert(args[2] == more[0]);
    }
    if more.len() > 1 {
        assert(args[3] == more[1]);
    }
}

/// Where the transcript of an alignment is: after an `@` comes the path of a file that holds it.
pub fn text_source(arg: &str) -> (res: TextSource)
    ensures
        match res {
            TextSource::File(path) => arg@.len() > 0 && arg@[0] == '@' && path@ == arg@.skip(1),
            TextSource::Given(text) => !(arg@.len() > 0 && arg@[0] == '@') && text@ == arg@,
        },
{
    if !arg.is_empty() && arg.get_char(0) == '@' {
        let g: Vec<Glyph> = to_glyphs(arg);
        let path: Vec<Glyph> = crate::text::copy_range(&g, 1, g.len());
        let res: String = to_text(&path);
        assert(res@ =~= arg@.skip(1));
        TextSource::File(res)
    } else {
        TextSource::Given(arg.to_owned())
    }
}

/// A transcript that was read from a file, without the white space around it.
pub fn trim_transcript(text: &str) -> (res: String)
    ensures
        res@ == crate::text::chars(crate::text::trimmed(crate::text::glyphs(text@))),
{
    let g: Vec<Glyph> = to_glyphs(text);
    to_text(&trim(&g))
}

} // verus!
