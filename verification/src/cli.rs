//! What the command line asks for.

use crate::layer::{LayerParams, LayerType};
use crate::names;
use crate::text;
use vstd::prelude::*;

verus! {

/// What the arguments say.
pub struct Options {
    pub input: Option<Seq<char>>,
    pub output: Option<Seq<char>>,
    pub i3d: Option<Seq<char>>,
    pub channels: Option<usize>,
    pub compress_at: Option<usize>,
    pub type_index: usize,
}

/// What the arguments ask for.
pub enum Request {
    /// To convert the input.
    Convert(Options),
    /// To explain the usage.
    Help,
    /// Nothing, for want of an input.
    NoInput,
    /// Something unknown.
    UnknownOption(Seq<char>),
}

impl Options {
    /// What holds where nothing is said.
    pub open spec fn none() -> Options {
        Options {
            input: None,
            output: None,
            i3d: None,
            channels: None,
            compress_at: None,
            type_index: 0,
        }
    }

    /// What an option says together with its value. A number that cannot be read counts as none.
    pub open spec fn with_value(self, option: Seq<char>, value: Seq<char>) -> Options {
        if option == "--i3d"@ {
            Options { i3d: Some(value), ..self }
        } else if option == "--channels"@ {
            Options { channels: text::parsed_number(value), ..self }
        } else if option == "--compress-at"@ {
            Options { compress_at: text::parsed_number(value), ..self }
        } else {
            Options {
                type_index: match text::parsed_number(value) {
                    Some(n) => n,
                    None => 0,
                },
                ..self
            }
        }
    }

    /// What a path says: the first is the input, the second the output, and others mean nothing.
    pub open spec fn with_path(self, path: Seq<char>) -> Options {
        if self.input is None {
            Options { input: Some(path), ..self }
        } else if self.output is None {
            Options { output: Some(path), ..self }
        } else {
            self
        }
    }
}

/// Whether an argument is an option that takes the next argument for its value.
pub open spec fn takes_value(arg: Seq<char>) -> bool {
    arg == "--i3d"@ || arg == "--channels"@ || arg == "--compress-at"@ || arg == "--type-index"@
}

/// What the arguments from `i` on ask for, where those before say what `options` holds. An option
/// without its value at the end means nothing.
pub open spec fn requested_from(args: Seq<Seq<char>>, i: int, options: Options) -> Request
    decreases args.len() - i,
{
    if i >= args.len() {
        if options.input is Some {
            Request::Convert(options)
        } else {
            Request::NoInput
        }
    } else if takes_value(args[i]) {
        if i + 1 < args.len() {
            requested_from(args, i + 2, options.with_value(args[i], args[i + 1]))
        } else {
            requested_from(args, i + 1, options)
        }
    } else if args[i] == "--help"@ || args[i] == "-h"@ {
        Request::Help
    } else if args[i].len() == 0 || args[i][0] != '-' {
        requested_from(args, i + 1, options.with_path(args[i]))
    } else {
        Request::UnknownOption(args[i])
    }
}

/// What the arguments ask for. The first is the name of the program.
pub open spec fn requested(args: Seq<Seq<char>>) -> Request {
    requested_from(args, 1, Options::none())
}

/// The contents of the arguments.
pub open spec fn contents(args: Seq<String>) -> Seq<Seq<char>> {
    Seq::new(args.len(), |i: int| args[i]@)
}

/// What the arguments say.
#[derive(Debug)]
pub struct Arguments {
    pub input_path: String,
    pub output_path: Option<String>,
    pub i3d_path: Option<String>,
    pub channels: Option<usize>,
    pub compress_at: Option<usize>,
    pub type_index: usize,
}

/// What the arguments ask for.
#[derive(Debug)]
pub enum Command {
    /// To convert the input.
    Convert(Arguments),
    /// To explain the usage.
    Help,
    /// Nothing, for want of an input.
    NoInput,
    /// Something unknown.
    UnknownOption(String),
}

/// The content of a string that may be missing.
pub open spec fn maybe(s: Option<String>) -> Option<Seq<char>> {
    match s {
        Some(s) => Some(s@),
        None => None,
    }
}

impl View for Arguments {
    type V = Options;

    open spec fn view(&self) -> Options {
        Options {
            input: Some(self.input_path@),
            output: maybe(self.output_path),
            i3d: maybe(self.i3d_path),
            channels: self.channels,
            compress_at: self.compress_at,
            type_index: self.type_index,
        }
    }
}

impl View for Command {
    type V = Request;

    open spec fn view(&self) -> Request {
        match self {
            Command::Convert(arguments) => Request::Convert(arguments@),
            Command::Help => Request::Help,
            Command::NoInput => Request::NoInput,
            Command::UnknownOption(option) => Request::UnknownOption(option@),
        }
    }
}

fn begins_with_dash(arg: &str) -> (dash: bool)
    ensures
        dash == (arg@.len() > 0 && arg@[0] == '-'),
{
    let chars: Vec<char> = text::chars_of(arg);
    chars.len() > 0 && chars[0] == '-'
}

fn number_in(value: &str) -> (number: Option<usize>)
    ensures
        number == text::parsed_number(value@),
{
    text::parse_number(&text::chars_of(value))
}

/// Reads the arguments, of which the first is the name of the program.
pub fn parse_arguments(args: &Vec<String>) -> (command: Command)
    ensures
        command@ == requested(contents(args@)),
{
    let ghost all = contents(args@);
    let mut input_path: Option<String> = None;
    let mut output_path: Option<String> = None;
    let mut i3d_path: Option<String> = None;
    let mut channels: Option<usize> = None;
    let mut compress_at: Option<usize> = None;
    let mut type_index: usize = 0;
    let mut i: usize = 1;
    assert(args.len() == args@.len());
    while i < args.len()
        invariant
            1 <= i,
            all == contents(args@),
            args@.len() <= usize::MAX,
            requested(all) == requested_from(
                all,
                i as int,
                (Options {
                    input: maybe(input_path),
                    output: maybe(output_path),
                    i3d: maybe(i3d_path),
                    channels,
                    compress_at,
                    type_index,
                }),
            ),
        decreases args@.len() - i,
    {
        let arg: &str = args[i].as_str();
        let is_i3d: bool = text::is_text(arg, "--i3d");
        let is_channels: bool = text::is_text(arg, "--channels");
        let is_compress_at: bool = text::is_text(arg, "--compress-at");
        if is_i3d || is_channels || is_compress_at || text::is_text(arg, "--type-index") {
            i = i + 1;
            if i < args.len() {
                let value: &String = &args[i];
                if is_i3d {
                    i3d_path = Some(value.clone());
                } else if is_channels {
                    channels = number_in(value.as_str());
                } else if is_compress_at {
                    compress_at = number_in(value.as_str());
                } else {
                    type_index = match number_in(value.as_str()) {
                        Some(n) => n,
                        None => 0,
                    };
                }
                i = i + 1;
            }
        } else if text::is_text(arg, "--help") || text::is_text(arg, "-h") {
            return Command::Help;
        } else if !begins_with_dash(arg) {
            if input_path.is_none() {
                input_path = Some(args[i].clone());
            } else if output_path.is_none() {
                output_path = Some(args[i].clone());
            }
            i = i + 1;
        } else {
            return Command::UnknownOption(args[i].clone());
        }
    }
    match input_path {
        Some(input_path) => Command::Convert(
            Arguments { input_path, output_path, i3d_path, channels, compress_at, type_index },
        ),
        None => Command::NoInput,
    }
}

/// The kind of an input file.
#[derive(Debug, Clone, Copy, PartialEq, Eq, Structural)]
pub enum InputKind {
    /// To be decoded.
    Grle,
    /// To be decoded.
    Gdm,
    /// To be encoded.
    Png,
    Unknown,
}

/// The kind of the file of the given name, which its extension tells.
pub open spec fn kind_of(file_name: Seq<char>) -> InputKind {
    if names::extension_is(file_name, "grle"@) {
        InputKind::Grle
    } else if names::extension_is(file_name, "gdm"@) {
        InputKind::Gdm
    } else if names::extension_is(file_name, "png"@) {
        InputKind::Png
    } else {
        InputKind::Unknown
    }
}

/// Tells the kind of the file of the given name.
pub fn input_kind(file_name: &str) -> (kind: InputKind)
    ensures
        kind == kind_of(file_name@),
{
    if names::has_extension(file_name, "grle") {
        InputKind::Grle
    } else if names::has_extension(file_name, "gdm") {
        InputKind::Gdm
    } else if names::has_extension(file_name, "png") {
        InputKind::Png
    } else {
        InputKind::Unknown
    }
}

/// Where the parameters for encoding come from.
#[derive(Debug, Clone, Copy, PartialEq, Eq)]
pub enum ParamChoice {
    /// From the i3d file.
    Found(LayerParams),
    /// From the arguments.
    Manual(LayerParams),
    /// From nowhere: a GRLE file was asked for, which needs none.
    Default(LayerParams),
    /// They are not known.
    Missing,
}

/// The parameters for encoding the file of the given name: those of the i3d file; without them,
/// those of the arguments; without them, the defaults for a GRLE file if the name of the output
/// asks for one.
pub open spec fn chosen_params(
    found: Option<LayerParams>,
    channels: Option<usize>,
    compress_at: Option<usize>,
    type_index: usize,
    file_name: Seq<char>,
    grle_asked: bool,
) -> ParamChoice {
    match (found, channels) {
        (Some(params), _) => ParamChoice::Found(params),
        (None, Some(num_channels)) => ParamChoice::Manual(
            LayerParams {
                layer_type: if text::occurs(file_name, "infoLayer"@) || grle_asked {
                    LayerType::InfoLayer
                } else {
                    LayerType::GdmLayer
                },
                num_channels,
                compression_channels: compress_at,
                type_index_channels: type_index,
            },
        ),
        (None, None) => if grle_asked {
            ParamChoice::Default(
                LayerParams {
                    layer_type: LayerType::InfoLayer,
                    num_channels: 1,
                    compression_channels: None,
                    type_index_channels: 0,
                },
            )
        } else {
            ParamChoice::Missing
        },
    }
}

/// Chooses the parameters for encoding the file of the given name.
pub fn choose_params(
    found: Option<LayerParams>,
    arguments: &Arguments,
    file_name: &str,
    grle_asked: bool,
) -> (choice: ParamChoice)
    ensures
        choice == chosen_params(
            found,
            arguments.channels,
            arguments.compress_at,
            arguments.type_index,
            file_name@,
            grle_asked,
        ),
{
    if let Some(params) = found {
        return ParamChoice::Found(params);
    }
    match arguments.channels {
        Some(num_channels) => {
            let named: bool = text::has_text(
                &text::chars_of(file_name),
                &text::chars_of("infoLayer"),
            );
            ParamChoice::Manual(
                LayerParams {
                    layer_type: if named || grle_asked {
                        LayerType::InfoLayer
                    } else {
                        LayerType::GdmLayer
                    },
                    num_channels,
                    compression_channels: arguments.compress_at,
                    type_index_channels: arguments.type_index,
                },
            )
        },
        None => if grle_asked {
            ParamChoice::Default(
                LayerParams {
                    layer_type: LayerType::InfoLayer,
                    num_channels: 1,
                    compression_channels: None,
                    type_index_channels: 0,
                },
            )
        } else {
            ParamChoice::Missing
        },
    }
}

/// Whether the file of the given name is a GRLE file.
pub fn is_grle_name(file_name: &str) -> (grle: bool)
    ensures
        grle == names::extension_is(file_name@, "grle"@),
{
    names::has_extension(file_name, "grle")
}

/// The path that a decoded file is written to: the one that was asked for, or else the name of the
/// input with another extension.
pub fn png_output(output_path: &Option<String>, input_name: &str) -> (path: String)
    ensures
        path@ == (match *output_path {
            Some(asked) => asked@,
            None => names::renamed(input_name@, ".png"@),
        }),
{
    match output_path {
        Some(asked) => asked.clone(),
        None => names::with_extension(input_name, ".png"),
    }
}

/// Where an encoded file is written to, and as what.
#[derive(Debug)]
pub struct EncodedOutput {
    pub path: String,
    pub use_grle: bool,
}

/// Chooses where an encoded file is written to, and as what. The name of the output decides if one
/// was asked for, and `grle_asked` then says whether it is that of a GRLE file; else the type of the
/// layer decides.
pub fn encoded_output(
    output_path: &Option<String>,
    grle_asked: bool,
    input_name: &str,
    layer_type: LayerType,
) -> (output: EncodedOutput)
    ensures
        match *output_path {
            Some(asked) => output.path@ == asked@ && output.use_grle == grle_asked,
            None => match layer_type {
                LayerType::InfoLayer => {
                    &&& output.path@ == names::renamed(input_name@, ".grle"@)
                    &&& output.use_grle
                },
                LayerType::GdmLayer => {
                    &&& output.path@ == names::renamed(input_name@, ".gdm"@)
                    &&& !output.use_grle
                },
            },
        },
{
    match output_path {
        Some(asked) => EncodedOutput { path: asked.clone(), use_grle: grle_asked },
        None => match layer_type {
            LayerType::InfoLayer => EncodedOutput {
                path: names::with_extension(input_name, ".grle"),
                use_grle: true,
            },
            LayerType::GdmLayer => EncodedOutput {
                path: names::with_extension(input_name, ".gdm"),
                use_grle: false,
            },
        },
    }
}

} // verus!
