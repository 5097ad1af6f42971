//! Command-line argument parsing for the player.

use vstd::prelude::*;

verus! {

/// The arguments a command line selects: the text to speak and the voice.
#[derive(Debug)]
pub struct CliArgs {
    pub text: Option<String>,
    pub voice: Option<String>,
}

/// Mathematical image of an optional argument value.
pub open spec fn opt_view(o: Option<String>) -> Option<Seq<char>> {
    match o {
        Some(s) => Some(s@),
        None => None,
    }
}

/// What parsing yields: the collected arguments, or the message the caller
/// is handed (an error, or the help text for `--help`).
pub ghost enum ParseView {
    Args { text: Option<Seq<char>>, voice: Option<Seq<char>> },
    Fail { msg: Seq<char> },
}

/// The help text shown for `--help`.
pub open spec fn help_text() -> Seq<char> {
    "TTS Player - Text-to-Speech Audio Player\n\nUSAGE:\n    tts-player [OPTIONS]\n\nOPTIONS:\n    -t, --text <TEXT>     Text to convert to speech\n    -v, --voice <VOICE>   Voice ID to use (rachel, adam, bella)\n    -h, --help           Print help information\n\nEXAMPLES:\n    tts-player --text \"Hello world\"\n    tts-player -t \"Hello world\" -v rachel\n"@
}

/// Parse the arguments from position `i` on, with the values collected so
/// far.  A flag consumes the following argument as its value; `--help` and
/// unknown arguments stop parsing with a message.
pub open spec fn parse_from(
    args: Seq<Seq<char>>,
    i: int,
    text: Option<Seq<char>>,
    voice: Option<Seq<char>>,
) -> ParseView
    decreases args.len() - i,
{
    if i >= args.len() {
        ParseView::Args { text, voice }
    } else {
        let a = args[i];
        if a == "--text"@ || a == "-t"@ {
            if i + 1 < args.len() {
                parse_from(args, i + 2, Some(args[i + 1]), voice)
            } else {
                ParseView::Fail { msg: "Missing value for --text argument"@ }
            }
        } else if a == "--voice"@ || a == "-v"@ {
            if i + 1 < args.len() {
                parse_from(args, i + 2, text, Some(args[i + 1]))
            } else {
                ParseView::Fail { msg: "Missing value for --voice argument"@ }
            }
        } else if a == "--help"@ || a == "-h"@ {
            ParseView::Fail { msg: help_text() }
        } else {
            ParseView::Fail { msg: "Unknown argument: "@ + a }
        }
    }
}

/// What `parse_cli_args` returns: parsing from the first argument after the
/// program name, with nothing collected.
pub open spec fn parse_spec(args: Seq<Seq<char>>) -> ParseView {
    parse_from(args, 1, None, None)
}

/// The help text, as `--help` hands it to the caller.
pub fn format_help() -> (h: String)
    ensures
        h@ == help_text(),
{
    String::from_str(
        "TTS Player - Text-to-Speech Audio Player\n\nUSAGE:\n    tts-player [OPTIONS]\n\nOPTIONS:\n    -t, --text <TEXT>     Text to convert to speech\n    -v, --voice <VOICE>   Voice ID to use (rachel, adam, bella)\n    -h, --help           Print help information\n\nEXAMPLES:\n    tts-player --text \"Hello world\"\n    tts-player -t \"Hello world\" -v rachel\n",
    )
}

/// Parse a command line (the program name first): `--text`/`-t` and
/// `--voice`/`-v` take the next argument as their value, later occurrences
/// winning; `--help`/`-h` yields the help text as the error value; anything
/// else is rejected.
pub fn parse_cli_args(args: Vec<String>) -> (r: Result<CliArgs, String>)
    ensures
        r matches Ok(c) ==> parse_spec(args.deep_view()) == (ParseView::Args {
            text: opt_view(c.text),
            voice: opt_view(c.voice),
        }),
        r matches Err(m) ==> parse_spec(args.deep_view()) == (ParseView::Fail { msg: m@ }),
{
    let ghost dv = args.deep_view();
    let flag_text = String::from_str("--text");
    let flag_t = String::from_str("-t");
    let flag_voice = String::from_str("--voice");
    let flag_v = String::from_str("-v");
    let flag_help = String::from_str("--help");
    let flag_h = String::from_str("-h");
    let mut text: Option<String> = None;
    let mut voice: Option<String> = None;
    let mut i: usize = 1;
    while i < args.len()
        invariant
            1 <= i,
            dv == args.deep_view(),
            dv.len() == args@.len(),
            flag_text@ == "--text"@,
            flag_t@ == "-t"@,
            flag_voice@ == "--voice"@,
            flag_v@ == "-v"@,
            flag_help@ == "--help"@,
            flag_h@ == "-h"@,
            parse_from(dv, i as int, opt_view(text), opt_view(voice)) == parse_spec(dv),
        decreases args.len() - i,
    {
        proof {
            assert(dv[i as int] == args@[i as int]@);
            if i + 1 < args@.len() {
                assert(dv[i + 1] == args@[i + 1]@);
            }
        }
        let a = &args[i];
        if *a == flag_text || *a == flag_t {
            if i + 1 < args.len() {
                text = Some(args[i + 1].clone());
                i = i + 2;
            } else {
                return Err(String::from_str("Missing value for --text argument"));
            }
        } else if *a == flag_voice || *a == flag_v {
            if i + 1 < args.len() {
                voice = Some(args[i + 1].clone());
                i = i + 2;
            } else {
                return Err(String::from_str("Missing value for --voice argument"));
            }
        } else if *a == flag_help || *a == flag_h {
            return Err(format_help());
        } else {
            let mut m = String::from_str("Unknown argument: ");
            m.append(a.as_str());
            return Err(m);
        }
    }
    Ok(CliArgs { text, voice })
}

} // verus!
