//! What the arguments mean.

use crate::cli::{
    chosen_params, contents, kind_of, maybe, requested, requested_from, Arguments, Command, Options,
    ParamChoice, Request,
};
use crate::layer::{LayerParams, LayerType};
use crate::names::extension_is;
use crate::text::{occurs, parsed_number};
use vstd::prelude::*;

verus! {

proof fn lemma_options_differ()
    ensures
        "--i3d"@.len() == 5,
        "--channels"@.len() == 10,
        "--compress-at"@.len() == 13,
        "--type-index"@.len() == 12,
        "--help"@.len() == 6,
        "-h"@.len() == 2,
        "--i3d"@[0] == '-' && "--channels"@[0] == '-' && "--compress-at"@[0] == '-'
            && "--type-index"@[0] == '-' && "--help"@[0] == '-' && "-h"@[0] == '-',
{
    reveal_strlit("--i3d");
    reveal_strlit("--channels");
    reveal_strlit("--compress-at");
    reveal_strlit("--type-index");
    reveal_strlit("--help");
    reveal_strlit("-h");
}

/// The arguments behind the name of the program are read one after the other, and nothing is said
/// at first. At the end there is something to convert where there is an input.
pub proof fn law_arguments(args: Seq<Seq<char>>, i: int, options: Options)
    ensures
        requested(args) == requested_from(
            args,
            1,
            (Options {
                input: None,
                output: None,
                i3d: None,
                channels: None,
                compress_at: None,
                type_index: 0,
            }),
        ),
        i >= args.len() ==> requested_from(args, i, options) == (if options.input is Some {
            Request::Convert(options)
        } else {
            Request::NoInput
        }),
{
}

/// An option says what its value says, of what it is about and of nothing else, in place of what
/// was said before. A number that cannot be read is none, and zero for the engine.
pub proof fn law_options(args: Seq<Seq<char>>, i: int, options: Options)
    requires
        0 <= i,
        i + 1 < args.len(),
    ensures
        args[i] == "--i3d"@ ==> requested_from(args, i, options) == requested_from(
            args,
            i + 2,
            (Options {
                input: options.input,
                output: options.output,
                i3d: Some(args[i + 1]),
                channels: options.channels,
                compress_at: options.compress_at,
                type_index: options.type_index,
            }),
        ),
        args[i] == "--channels"@ ==> requested_from(args, i, options) == requested_from(
            args,
            i + 2,
            (Options {
                input: options.input,
                output: options.output,
                i3d: options.i3d,
                channels: parsed_number(args[i + 1]),
                compress_at: options.compress_at,
                type_index: options.type_index,
            }),
        ),
        args[i] == "--compress-at"@ ==> requested_from(args, i, options) == requested_from(
            args,
            i + 2,
            (Options {
                input: options.input,
                output: options.output,
                i3d: options.i3d,
                channels: options.channels,
                compress_at: parsed_number(args[i + 1]),
                type_index: options.type_index,
            }),
        ),
        args[i] == "--type-index"@ ==> requested_from(args, i, options) == requested_from(
            args,
            i + 2,
            (Options {
                input: options.input,
                output: options.output,
                i3d: options.i3d,
                channels: options.channels,
                compress_at: options.compress_at,
                type_index: if parsed_number(args[i + 1]) is Some {
                    parsed_number(args[i + 1])->0
                } else {
                    0
                },
            }),
        ),
{
    lemma_options_differ();
}

/// An option without a value at the end says nothing.
pub proof fn law_option_at_the_end(args: Seq<Seq<char>>, i: int, options: Options)
    requires
        0 <= i,
        i + 1 == args.len(),
        args[i] == "--i3d"@ || args[i] == "--channels"@ || args[i] == "--compress-at"@ || args[i]
            == "--type-index"@,
    ensures
        requested_from(args, i, options) == (if options.input is Some {
            Request::Convert(options)
        } else {
            Request::NoInput
        }),
{
    law_arguments(args, i + 1, options);
}

/// What is asked for help is help, whatever follows. Anything else behind a dash is unknown. What
/// does not begin with a dash is a path: the first the input, the second the output, and others say
/// nothing.
pub proof fn law_other_arguments(args: Seq<Seq<char>>, i: int, options: Options)
    requires
        0 <= i < args.len(),
        args[i] != "--i3d"@,
        args[i] != "--channels"@,
        args[i] != "--compress-at"@,
        args[i] != "--type-index"@,
    ensures
        args[i] == "--help"@ || args[i] == "-h"@ ==> requested_from(args, i, options) is Help,
        args[i] != "--help"@ && args[i] != "-h"@ && args[i].len() > 0 && args[i][0] == '-'
            ==> requested_from(args, i, options) == Request::UnknownOption(args[i]),
        args[i].len() == 0 || args[i][0] != '-' ==> requested_from(args, i, options)
            == requested_from(
            args,
            i + 1,
            (Options {
                input: if options.input is None {
                    Some(args[i])
                } else {
                    options.input
                },
                output: if options.input is Some && options.output is None {
                    Some(args[i])
                } else {
                    options.output
                },
                i3d: options.i3d,
                channels: options.channels,
                compress_at: options.compress_at,
                type_index: options.type_index,
            }),
        ),
{
    lemma_options_differ();
}

/// The kind of a file is told by its extension.
pub proof fn law_kinds(file_name: Seq<char>)
    ensures
        kind_of(file_name) is Grle <==> extension_is(file_name, "grle"@),
        kind_of(file_name) is Gdm <==> extension_is(file_name, "gdm"@),
        kind_of(file_name) is Png <==> extension_is(file_name, "png"@),
{
    reveal_strlit("grle");
    reveal_strlit("gdm");
    reveal_strlit("png");
    let (a, b) = ("gdm"@, "png"@);
    if extension_is(file_name, a) && extension_is(file_name, b) {
        let found = crate::names::file_extension(file_name)->0;
        assert(crate::names::lower_case(found[0]) == crate::names::lower_case(a[0]));
        assert(crate::names::lower_case(found[0]) == crate::names::lower_case(b[0]));
    }
}

/// What the i3d file says comes first. Without it the arguments count where they say how many
/// channels there are, and the layer is an info layer where the name of the file or of the output
/// says so. Without them an output that is a GRLE file needs one channel, and another cannot be
/// written.
pub proof fn law_params(
    found: Option<LayerParams>,
    channels: Option<usize>,
    compress_at: Option<usize>,
    type_index: usize,
    file_name: Seq<char>,
    grle_asked: bool,
)
    ensures
        ({
            let choice = chosen_params(
                found,
                channels,
                compress_at,
                type_index,
                file_name,
                grle_asked,
            );
            &&& found matches Some(params) ==> choice == ParamChoice::Found(params)
            &&& found is None && channels is Some ==> (choice matches ParamChoice::Manual(params)
                && params.num_channels == channels->0 && params.compression_channels == compress_at
                && params.type_index_channels == type_index && (params.layer_type is InfoLayer
                <==> grle_asked || occurs(file_name, "infoLayer"@)))
            &&& found is None && channels is None && grle_asked ==> choice == ParamChoice::Default(
                (LayerParams {
                    layer_type: LayerType::InfoLayer,
                    num_channels: 1,
                    compression_channels: None,
                    type_index_channels: 0,
                }),
            )
            &&& found is None && channels is None && !grle_asked ==> choice is Missing
        }),
{
}

/// What is read of the arguments is what they say.
pub proof fn law_views(arguments: Arguments, command: Command, args: Seq<String>, s: String)
    ensures
        arguments@.input == Some(arguments.input_path@),
        arguments@.output == maybe(arguments.output_path),
        arguments@.i3d == maybe(arguments.i3d_path),
        arguments@.channels == arguments.channels,
        arguments@.compress_at == arguments.compress_at,
        arguments@.type_index == arguments.type_index,
        maybe(Some(s)) == Some(s@),
        maybe(None) is None,
        command matches Command::Convert(a) ==> command@ == Request::Convert(a@),
        command is Help ==> command@ is Help,
        command is NoInput ==> command@ is NoInput,
        command matches Command::UnknownOption(o) ==> command@ == Request::UnknownOption(o@),
        contents(args).len() == args.len(),
        forall|i: int| 0 <= i < args.len() ==> contents(args)[i] == #[trigger] args[i]@,
{
}

} // verus!
