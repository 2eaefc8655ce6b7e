//! Laws of remote sessions.

use vstd::prelude::*;

use crate::geometry::Rect;
use crate::input::{KeyCode, KeyEvent};
use crate::remote_session::{
    archive_file, auth_area, auth_cursor, connection_area, connection_cursor, connection_lines,
    container_draft, container_fault, folded_at, holds_folded, is_container_request, is_ssh_request,
    is_wsl_request, masks, one_line, optional_texts, pairs, parsed, path_fault, paths_fault,
    place_of, ssh_draft, ssh_fault, takes_value, transport_of, windows_absolute, without_breaks,
    wsl_draft, wsl_fault, ContainerDraft, Question, RemoteConnectionOptions, RemoteFault,
    RemotePathRequirement, RemoteRequest, RemoteUi, SshDraft, Token, Transport,
    MAX_REMOTE_PROMPT_BYTES,
};
use crate::text::{
    char_width, decimal, ends, folded_code, optional_text, same_folded, starts, texts, trimmed,
    utf8_len,
};
use crate::paint::Stroke;
use crate::remote_session::{auth_strokes, command_fault, connection_strokes, is_request, rest_texts};

verus! {

/// The names of options, by their lengths and letters.
proof fn lemma_option_names()
    ensures
        "--user"@.len() == 6 && "--user"@[2] == 'u',
        "--port"@.len() == 6 && "--port"@[2] == 'p',
        "--arg"@.len() == 5,
        "--timeout"@.len() == 9,
        "--nickname"@.len() == 10,
        "--no-upload"@.len() == 11,
        "--password"@.len() == 10 && "--password"@[2] == 'p',
        "--nickname"@[2] == 'n',
        "--podman"@.len() == 8 && "--podman"@[2] == 'p',
        "--docker"@.len() == 8 && "--docker"@[2] == 'd',
        "--id"@.len() == 4,
        "--env"@.len() == 5,
{
    reveal_strlit("--user");
    reveal_strlit("--port");
    reveal_strlit("--arg");
    reveal_strlit("--timeout");
    reveal_strlit("--nickname");
    reveal_strlit("--no-upload");
    reveal_strlit("--password");
    reveal_strlit("--podman");
    reveal_strlit("--docker");
    reveal_strlit("--id");
    reveal_strlit("--env");
}

/// Each option of a command for SSH sets what it is called after, and leaves
/// the rest; a word goes behind the words before it.
pub proof fn ssh_options_set_what_they_name(list: Seq<Token>, value: Seq<char>, number: nat)
    requires
        ssh_draft(list) is Ok,
        number <= u16::MAX,
    ensures
        ({
            let draft = ssh_draft(list)->Ok_0;
            let with = |name: Seq<char>, value: Seq<char>|
                ssh_draft(list.push(Token::Valued(name, value)));
            let ok = |draft: SshDraft| Ok::<SshDraft, RemoteFault>(draft);
            &&& with("--user"@, value) == ok(SshDraft { username: Some(value), ..draft })
            &&& with("--nickname"@, value) == ok(SshDraft { nickname: Some(value), ..draft })
            &&& with("--port"@, decimal(number)) == ok(
                SshDraft { port: Some(number as u16), ..draft },
            )
            &&& with("--timeout"@, decimal(number)) == ok(
                SshDraft { timeout: Some(number as u16), ..draft },
            )
            &&& with("--arg"@, value) == ok(SshDraft { args: draft.args.push(value), ..draft })
            &&& ssh_draft(list.push(Token::Flag("--no-upload"@))) == ok(
                SshDraft { upload: false, ..draft },
            )
            &&& ssh_draft(list.push(Token::Word(value))) == ok(
                SshDraft { words: draft.words.push(value), ..draft },
            )
        }),
{
    lemma_option_names();
    crate::laws::text::decimals_are_read_back(number, 65535);
    assert forall|token: Token| #[trigger] list.push(token).drop_last() == list by {
        assert(list.push(token).drop_last() =~= list);
    }
}

/// A command starts without any option set, and with an upload.
pub proof fn commands_start_without_options(podman: bool)
    ensures
        ssh_draft(Seq::empty()) matches Ok(draft) && draft.username is None && draft.port is None
            && draft.timeout is None && draft.nickname is None && draft.args.len() == 0
            && draft.words.len() == 0 && draft.upload,
        wsl_draft(Seq::empty()) matches Ok(draft) && draft.0 is None && draft.1.len() == 0,
        container_draft(Seq::empty(), podman) matches Ok(draft) && draft.id is None && draft.user
            is None && draft.env.len() == 0 && draft.words.len() == 0 && draft.upload
            && draft.podman == podman,
{
}

/// Each option of a command for a container sets what it is called after, and
/// leaves the rest; a word goes behind the words before it.
pub proof fn container_options_set_what_they_name(list: Seq<Token>, podman: bool, value: Seq<char>)
    requires
        container_draft(list, podman) is Ok,
    ensures
        ({
            let draft = container_draft(list, podman)->Ok_0;
            let with = |token: Token| container_draft(list.push(token), podman);
            let ok = |draft: ContainerDraft| Ok::<ContainerDraft, RemoteFault>(draft);
            &&& with(Token::Valued("--id"@, value)) == ok(ContainerDraft { id: Some(value), ..draft })
            &&& with(Token::Valued("--user"@, value)) == ok(
                ContainerDraft { user: Some(value), ..draft },
            )
            &&& with(Token::Flag("--podman"@)) == ok(ContainerDraft { podman: true, ..draft })
            &&& with(Token::Flag("--docker"@)) == ok(ContainerDraft { podman: false, ..draft })
            &&& with(Token::Flag("--no-upload"@)) == ok(ContainerDraft { upload: false, ..draft })
            &&& with(Token::Word(value)) == ok(
                ContainerDraft { words: draft.words.push(value), ..draft },
            )
        }),
{
    lemma_option_names();
    assert forall|token: Token| #[trigger] list.push(token).drop_last() == list by {
        assert(list.push(token).drop_last() =~= list);
    }
}

proof fn lemma_place_of(env: Seq<(Seq<char>, Seq<char>)>, name: Seq<char>)
    ensures
        0 <= place_of(env, name) <= env.len(),
    decreases env.len(),
{
    if env.len() > 0 {
        lemma_place_of(env.drop_last(), name);
    }
}

/// A variable is what stands in front of the first equals sign, its value all
/// that stands behind; those that were there before stay.
pub proof fn variables_are_added_with_their_values(
    list: Seq<Token>,
    podman: bool,
    name: Seq<char>,
    value: Seq<char>,
)
    requires
        container_draft(list, podman) is Ok,
        !name.contains('='),
        container_draft(list.push(Token::Valued("--env"@, name.push('=') + value)), podman) is Ok,
    ensures
        ({
            let before = container_draft(list, podman)->Ok_0;
            let after = container_draft(
                list.push(Token::Valued("--env"@, name.push('=') + value)),
                podman,
            )->Ok_0;
            &&& after.env.contains((name, value))
            &&& after.env.len() == before.env.len() + 1
            &&& forall|i: int|
                0 <= i < before.env.len() ==> after.env.contains(#[trigger] before.env[i])
            &&& after.words == before.words && after.id == before.id && after.user == before.user
        }),
{
    lemma_option_names();
    let pair = name.push('=') + value;
    let token = Token::Valued("--env"@, pair);
    assert(list.push(token).drop_last() =~= list);
    let before = container_draft(list, podman)->Ok_0;
    let after = container_draft(list.push(token), podman)->Ok_0;
    crate::text::lemma_first_index(pair, '=');
    let at = crate::text::first_index(pair, '=');
    assert(pair[name.len() as int] == '=');
    if at < name.len() {
        assert(name[at] == pair[at]);
        assert(name.contains('='));
    }
    assert(pair.take(at) =~= name);
    assert(pair.skip(at + 1) =~= value);
    lemma_place_of(before.env, name);
    let place = place_of(before.env, name);
    assert(after.env[place] == (name, value));
    assert forall|i: int| 0 <= i < before.env.len() implies after.env.contains(
        #[trigger] before.env[i],
    ) by {
        if i < place {
            assert(after.env[i] == before.env[i]);
        } else {
            assert(after.env[i + 1] == before.env[i]);
        }
    }
}

/// Behind two dashes every argument is a word.
pub proof fn dashes_end_the_options(transport: Transport, list: Seq<Seq<char>>)
    ensures
        parsed(transport, seq!["--"@] + list, false) == Seq::new(
            list.len(),
            |i: int| Token::Word(list[i]),
        ),
{
    let all = seq!["--"@] + list;
    assert(all.drop_first() =~= list);
    lemma_words_only(transport, list);
}

proof fn lemma_words_only(transport: Transport, list: Seq<Seq<char>>)
    ensures
        parsed(transport, list, true) == Seq::new(list.len(), |i: int| Token::Word(list[i])),
    decreases list.len(),
{
    let words = Seq::new(list.len(), |i: int| Token::Word(list[i]));
    if list.len() > 0 {
        lemma_words_only(transport, list.drop_first());
        assert(parsed(transport, list, true) =~= words);
    } else {
        assert(parsed(transport, list, true) =~= words);
    }
}

/// An argument without a dash in front is a word; an option that takes a value
/// takes the argument behind it, whatever that is.
pub proof fn options_take_the_argument_behind_them(
    transport: Transport,
    word: Seq<char>,
    value: Seq<char>,
    list: Seq<Seq<char>>,
)
    ensures
        word.len() == 0 || word[0] != '-' ==> parsed(transport, seq![word] + list, false) == seq![
            Token::Word(word),
        ] + parsed(transport, list, false),
        word.len() > 0 && word[0] == '-' && word != "--"@ && takes_value(transport, word)
            ==> parsed(transport, seq![word, value] + list, false) == seq![
            Token::Valued(word, value),
        ] + parsed(transport, list, false) && parsed(transport, seq![word], false) == seq![
            Token::Bare(word),
        ],
        word.len() > 0 && word[0] == '-' && word != "--"@ && !takes_value(transport, word)
            ==> parsed(transport, seq![word] + list, false) == seq![Token::Flag(word)] + parsed(
            transport,
            list,
            false,
        ),
{
    reveal_strlit("--");
    reveal_strlit("-");
    if word.len() > 0 {
        assert(word.take(1) =~= seq![word[0]]);
        assert("-"@ =~= seq!['-']);
    }
    assert((seq![word] + list).drop_first() =~= list);
    assert((seq![word, value] + list).skip(2) =~= list);
    if word.len() == 0 || word[0] != '-' {
        assert("--"@[0] == '-' && "-"@[0] == '-');
        assert(word != "--"@);
        if starts(word, "-"@) {
            assert(word.take(1)[0] == word[0]);
        }
        assert(!starts(word, "-"@));
        assert((seq![word] + list)[0] == word);
    }
}

/// The options that take values, by transport.
pub proof fn options_with_values_are_these(transport: Transport, name: Seq<char>)
    ensures
        takes_value(transport, name) <==> {
            ||| name == "--user"@
            ||| transport is Ssh && (name == "--port"@ || name == "--arg"@ || name == "--timeout"@
                || name == "--nickname"@)
            ||| transport is Container && (name == "--id"@ || name == "--env"@)
        },
        transport_of(name) is Some <==> name == "ssh"@ || name == "wsl"@ || name == "container"@
            || name == "docker"@ || name == "podman"@,
        transport_of(name) == Some(Transport::Ssh) <==> name == "ssh"@,
        transport_of(name) == Some(Transport::Wsl) <==> name == "wsl"@,
{
    reveal_strlit("ssh");
    reveal_strlit("wsl");
    reveal_strlit("container");
    reveal_strlit("docker");
    reveal_strlit("podman");
    assert("ssh"@[0] == 's' && "wsl"@[0] == 'w');
}

/// A remote path that can be opened: absolute, in the manner of the machines
/// that can be meant, and without a NUL.
pub open spec fn can_be_opened(path: Seq<char>, requirement: RemotePathRequirement) -> bool {
    !path.contains('\0') && (path.len() > 0 && path[0] == '/' || requirement is Either
        && windows_absolute(path))
}

/// Paths are taken where each can be opened, and refused where one cannot; the
/// fault that is told is that of the first such path.
pub proof fn every_path_has_to_be_absolute(paths: Seq<Seq<char>>, requirement: RemotePathRequirement)
    ensures
        paths_fault(paths, requirement) is None <==> forall|i: int|
            0 <= i < paths.len() ==> can_be_opened(#[trigger] paths[i], requirement),
        paths_fault(paths, requirement) matches Some(fault) ==> exists|i: int|
            0 <= i < paths.len() && !can_be_opened(#[trigger] paths[i], requirement) && fault
                == path_fault(paths[i], requirement)->0 && forall|j: int|
                0 <= j < i ==> can_be_opened(#[trigger] paths[j], requirement),
    decreases paths.len(),
{
    if paths.len() > 0 {
        let rest = paths.drop_first();
        every_path_has_to_be_absolute(rest, requirement);
        assert forall|i: int| 0 < i < paths.len() implies #[trigger] paths[i] == rest[i - 1] by {}
        if path_fault(paths[0], requirement) is Some {
            assert(!can_be_opened(paths[0], requirement));
        } else {
            assert(can_be_opened(paths[0], requirement));
            if paths_fault(paths, requirement) is Some {
                let fault = paths_fault(paths, requirement)->0;
                let i = choose|i: int|
                    0 <= i < rest.len() && !can_be_opened(#[trigger] rest[i], requirement) && fault
                        == path_fault(rest[i], requirement)->0 && forall|j: int|
                        0 <= j < i ==> can_be_opened(#[trigger] rest[j], requirement);
                assert(paths[i + 1] == rest[i]);
                assert(!can_be_opened(paths[i + 1], requirement));
                assert forall|j: int| 0 <= j < i + 1 implies can_be_opened(
                    #[trigger] paths[j],
                    requirement,
                ) by {
                    if j > 0 {
                        assert(paths[j] == rest[j - 1]);
                    }
                }
            } else {
                assert forall|i: int| 0 <= i < paths.len() implies can_be_opened(
                    #[trigger] paths[i],
                    requirement,
                ) by {
                    if i > 0 {
                        assert(paths[i] == rest[i - 1]);
                    }
                }
            }
            if forall|i: int|
                0 <= i < paths.len() ==> can_be_opened(#[trigger] paths[i], requirement) {
                assert forall|i: int| 0 <= i < rest.len() implies can_be_opened(
                    #[trigger] rest[i],
                    requirement,
                ) by {
                    assert(can_be_opened(paths[i + 1], requirement));
                }
            }
        }
    }
}

/// A command is taken where its options are, where it names a machine and at
/// least one path, where no number is zero, and where each path can be opened.
pub proof fn commands_are_taken_where_they_are_whole(list: Seq<Token>, podman: bool)
    ensures
        ssh_fault(list) is None <==> {
            &&& ssh_draft(list) matches Ok(draft)
            &&& draft.words.len() >= 2
            &&& trimmed(draft.words[0]).len() > 0
            &&& draft.port != Some(0u16)
            &&& draft.timeout != Some(0u16)
            &&& forall|i: int|
                0 <= i < draft.words.drop_first().len() ==> can_be_opened(
                    #[trigger] draft.words.drop_first()[i],
                    RemotePathRequirement::Either,
                )
        },
        wsl_fault(list) is None <==> {
            &&& wsl_draft(list) matches Ok(draft)
            &&& draft.1.len() >= 2
            &&& trimmed(draft.1[0]).len() > 0
            &&& forall|i: int|
                0 <= i < draft.1.drop_first().len() ==> can_be_opened(
                    #[trigger] draft.1.drop_first()[i],
                    RemotePathRequirement::Unix,
                )
        },
        container_fault(list, podman) is None <==> {
            &&& container_draft(list, podman) matches Ok(draft)
            &&& draft.words.len() >= 2
            &&& trimmed(draft.words[0]).len() > 0
            &&& forall|i: int|
                0 <= i < draft.words.drop_first().len() ==> can_be_opened(
                    #[trigger] draft.words.drop_first()[i],
                    RemotePathRequirement::Unix,
                )
        },
{
    if let Ok(draft) = ssh_draft(list) {
        every_path_has_to_be_absolute(draft.words.drop_first(), RemotePathRequirement::Either);
    }
    if let Ok(draft) = wsl_draft(list) {
        every_path_has_to_be_absolute(draft.1.drop_first(), RemotePathRequirement::Unix);
    }
    if let Ok(draft) = container_draft(list, podman) {
        every_path_has_to_be_absolute(draft.words.drop_first(), RemotePathRequirement::Unix);
    }
}

/// The first word names the machine, the others the paths, in order.
pub proof fn the_first_word_names_the_machine(
    request: RemoteRequest,
    ssh: SshDraft,
    user: Option<Seq<char>>,
    words: Seq<Seq<char>>,
    container: ContainerDraft,
    k: int,
)
    ensures
        is_ssh_request(request, ssh) && 0 < k < ssh.words.len() ==> {
            &&& request.options matches RemoteConnectionOptions::Ssh(options)
            &&& options.host@ == ssh.words[0]
            &&& request.paths@.len() == ssh.words.len() - 1
            &&& request.paths@[k - 1]@ == ssh.words[k]
            &&& optional_text(options.username) == ssh.username
            &&& options.port == ssh.port
            &&& options.connection_timeout == ssh.timeout
            &&& optional_text(options.nickname) == ssh.nickname
            &&& options.upload_binary_over_ssh == ssh.upload
            &&& ssh.args.len() > 0 ==> optional_texts(options.args) == Some(ssh.args)
        },
        is_wsl_request(request, user, words) && 0 < k < words.len() ==> {
            &&& request.options matches RemoteConnectionOptions::Wsl(options)
            &&& options.distro_name@ == words[0]
            &&& optional_text(options.user) == user
            &&& request.paths@.len() == words.len() - 1
            &&& request.paths@[k - 1]@ == words[k]
        },
        is_container_request(request, container) && 0 < k < container.words.len() ==> {
            &&& request.options matches RemoteConnectionOptions::Docker(options)
            &&& options.name@ == container.words[0]
            &&& container.id is None ==> options.container_id@ == container.words[0]
            &&& container.id matches Some(id) ==> options.container_id@ == id
            &&& container.user matches Some(user) ==> options.remote_user@ == user
            &&& container.user is None ==> options.remote_user@.len() == 0
            &&& options.use_podman == container.podman
            &&& options.upload_binary_over_docker_exec == container.upload
            &&& pairs(options.remote_env@) == container.env
            &&& request.paths@.len() == container.words.len() - 1
            &&& request.paths@[k - 1]@ == container.words[k]
        },
{
    let list = texts(request.paths@);
    if is_ssh_request(request, ssh) && 0 < k < ssh.words.len() {
        assert(list.len() == ssh.words.len() - 1);
        assert(list[k - 1] == ssh.words[k]);
    }
    if is_wsl_request(request, user, words) && 0 < k < words.len() {
        assert(list.len() == words.len() - 1);
        assert(list[k - 1] == words[k]);
    }
    if is_container_request(request, container) && 0 < k < container.words.len() {
        assert(list.len() == container.words.len() - 1);
        assert(list[k - 1] == container.words[k]);
    }
}

/// What is typed goes to the end of the answer, Backspace takes off its last
/// scalar value, and Control with U all of it.
pub proof fn keys_edit_the_end_of_the_answer(ui: RemoteUi, event: KeyEvent)
    requires
        ui.prompt is Some,
        !(event.kind is Release),
    ensures
        ({
            let before = ui.prompt->0;
            let plain = !event.modifiers.control && !event.modifiers.alt
                && !event.modifiers.super_key && !event.modifiers.hyper && !event.modifiers.meta;
            match ui.after_key(event) {
                Ok((next, handled, changed, submitted)) => {
                    &&& handled && changed
                    &&& next.status == ui.status
                    &&& event.code is Esc ==> next.prompt is None && submitted is None
                    &&& event.code is Enter ==> next.prompt is None && submitted == Some(
                        before.input,
                    )
                    &&& !(event.code is Esc) && !(event.code is Enter) ==> {
                        &&& submitted is None
                        &&& next.prompt matches Some(after)
                        &&& after.prompt == before.prompt && after.masked == before.masked
                            && after.generation == before.generation
                        &&& event.code is Backspace && before.input.len() > 0 ==> after.input
                            == before.input.take(before.input.len() - 1)
                        &&& event.code is Backspace && before.input.len() == 0 ==> after.input
                            == before.input
                        &&& event.code matches KeyCode::Char(c) ==> {
                            &&& plain ==> after.input == before.input.push(c)
                            &&& c == 'u' && event.modifiers.control && !event.modifiers.shift
                                && !event.modifiers.alt && !event.modifiers.super_key
                                && !event.modifiers.hyper && !event.modifiers.meta
                                ==> after.input.len() == 0
                        }
                        &&& !(event.code is Char) && !(event.code is Backspace) ==> after.input
                            == before.input
                    }
                },
                Err(fault) => {
                    &&& fault is ResponseTooLarge
                    &&& event.code matches KeyCode::Char(c)
                    &&& utf8_len(before.input) + char_width(c) > MAX_REMOTE_PROMPT_BYTES
                },
            }
        }),
{
    let before = ui.prompt->0;
    if before.input.len() > 0 {
        assert(before.input.drop_last() =~= before.input.take(before.input.len() - 1));
    }
}

/// Line breaks are left out of what is pasted, and nothing else is.
pub proof fn line_breaks_are_not_pasted(s: Seq<char>)
    ensures
        without_breaks(s) == s.filter(|c: char| c != '\r' && c != '\n'),
    decreases s.len(),
{
    reveal(Seq::filter);
    if s.len() > 0 {
        line_breaks_are_not_pasted(s.drop_last());
    }
}

/// An answer that is not masked is shown as it is; the cursor is behind it
/// either way.
pub proof fn answers_are_shown_with_the_cursor_behind(ui: RemoteUi)
    requires
        ui.prompt is Some,
        ui.prompt->0.input.len() <= usize::MAX,
    ensures
        ui.shown() matches Some(shown) && {
            &&& shown.prompt == ui.prompt->0.prompt
            &&& shown.masked == ui.prompt->0.masked
            &&& !shown.masked ==> shown.input == ui.prompt->0.input
            &&& shown.cursor == ui.prompt->0.input.len()
            &&& shown.input.len() == ui.prompt->0.input.len()
        },
{
}

proof fn lemma_folds_to_itself(part: Seq<char>)
    ensures
        same_folded(part, part),
{
}

/// Questions that are answered with yes or no are not masked, wherever that
/// stands in them; all others are.
pub proof fn only_questions_of_yes_or_no_are_open(front: Seq<char>, end: Seq<char>, prompt: Seq<char>)
    ensures
        !masks(front + "yes/no"@ + end),
        !masks(front + "are you sure"@ + end),
        !masks(front + "continue connecting"@ + end),
        !masks(prompt) ==> holds_folded(prompt, "yes/no"@) || holds_folded(prompt, "are you sure"@)
            || holds_folded(prompt, "continue connecting"@),
{
    lemma_part_is_held(front, "yes/no"@, end);
    lemma_part_is_held(front, "are you sure"@, end);
    lemma_part_is_held(front, "continue connecting"@, end);
    if holds_folded(prompt, "yes/no/[fingerprint]"@) {
        let i = choose|i: int| folded_at(prompt, "yes/no/[fingerprint]"@, i);
        reveal_strlit("yes/no/[fingerprint]");
        reveal_strlit("yes/no");
        let long = prompt.subrange(i, i + "yes/no/[fingerprint]"@.len());
        let short = prompt.subrange(i, i + "yes/no"@.len());
        assert forall|k: int| 0 <= k < short.len() implies folded_code(#[trigger] short[k])
            == folded_code("yes/no"@[k]) by {
            assert(short[k] == long[k]);
            assert("yes/no"@[k] == "yes/no/[fingerprint]"@[k]);
        }
        assert(folded_at(prompt, "yes/no"@, i));
    }
}

proof fn lemma_part_is_held(front: Seq<char>, part: Seq<char>, end: Seq<char>)
    ensures
        holds_folded(front + part + end, part),
{
    let s = front + part + end;
    let i = front.len() as int;
    assert(s.subrange(i, i + part.len()) =~= part);
    lemma_folds_to_itself(part);
    assert(folded_at(s, part, i));
}

/// A text on one line has spaces for line breaks, is no wider than there is
/// room for, and is else as it was; an ellipsis stands for what is left out.
pub proof fn questions_fit_on_a_line(s: Seq<char>, width: int)
    requires
        0 < width,
    ensures
        ({
            let line = one_line(s, width);
            &&& line.len() <= width
            &&& s.len() <= width ==> line.len() == s.len()
            &&& s.len() > width ==> line.len() == width && line.last() == '\u{2026}'
            &&& !line.contains('\n') && !line.contains('\r') && !line.contains('\0')
            &&& forall|i: int|
                0 <= i < line.len() && (s.len() <= width || i < width - 1) && s[i] != '\n' && s[i]
                    != '\r' && s[i] != '\0' ==> #[trigger] line[i] == s[i]
        }),
        one_line(s, 0).len() == 0,
{
    let line = one_line(s, width);
    assert forall|i: int| 0 <= i < line.len() implies #[trigger] line[i] != '\n' && line[i] != '\r'
        && line[i] != '\0' by {}
}

/// The cursor is on the row of the answer, behind what was typed, as long as
/// there is room.
pub proof fn the_cursor_is_behind_the_answer(
    area: Rect,
    name: Seq<char>,
    status: Option<Seq<char>>,
    prompt: Question,
)
    requires
        area.x + area.width <= u16::MAX,
        area.y + area.height <= u16::MAX,
        area.height >= 9,
        prompt.cursor + 7 <= area.width,
    ensures
        ({
            let inner = connection_area(area);
            let lines = connection_lines(name, status, Some(prompt), inner.width as int);
            &&& connection_cursor(area, Some(prompt)) matches Some(place)
            &&& place.x - inner.x == 2 + prompt.cursor
            &&& lines[place.y - inner.y].0 == "> "@ + prompt.input
            &&& inner.x == area.x + 2 && inner.y == area.y + 2
            &&& inner.width == area.width - 4 && inner.height == area.height - 4
        }),
        connection_cursor(area, None) is None,
{
}

/// What is shown of a connection starts with the machine's name and goes on
/// with how far it is.
pub proof fn connections_tell_how_far_they_are(
    name: Seq<char>,
    status: Option<Seq<char>>,
    prompt: Option<Question>,
    width: int,
)
    ensures
        ({
            let lines = connection_lines(name, status, prompt, width);
            &&& ends(lines[0].0, name)
            &&& status matches Some(status) ==> lines[1].0 == status
            &&& prompt matches Some(prompt) ==> lines.len() == 6 && lines[3].0 == one_line(
                prompt.prompt,
                width,
            )
            &&& prompt is None ==> lines.len() == 4
        }),
{
    let all = "Connecting to "@ + name;
    assert(all.skip(all.len() - name.len()) =~= name);
}

/// A question is asked in the middle of the screen, and the cursor is on its
/// second row, behind what was typed, as long as there is room.
pub proof fn questions_are_asked_in_the_middle(outer: Rect, prompt: Question)
    requires
        outer.x + outer.width <= u16::MAX,
        outer.y + outer.height <= u16::MAX,
        outer.width >= 16,
        outer.height >= 9,
    ensures
        ({
            let area = auth_area(outer);
            let left = area.x - outer.x;
            let right = outer.width - left - area.width;
            let above = area.y - outer.y;
            let below = outer.height - above - area.height;
            &&& 0 <= right - left <= 1 && 0 <= below - above <= 1
            &&& left >= 2 && above >= 1
            &&& area.height == 7
            &&& area.width == if outer.width - 4 <= 92 {
                outer.width - 4
            } else {
                92
            }
            &&& auth_cursor(outer, prompt).y == area.y + 2
            &&& prompt.cursor + 5 <= area.width ==> auth_cursor(outer, prompt).x == area.x + 3
                + prompt.cursor
        }),
{
}

/// The name of an archive tells the system and the machine it is for.
pub proof fn archives_are_named_after_their_systems(os: Seq<char>, arch: Seq<char>, windows: bool)
    ensures
        ends(archive_file(os, arch, windows), "-"@ + os + "-"@ + arch + if windows {
            ".zip"@
        } else {
            ".gz"@
        }),
{
    reveal_strlit("zec-remote-server-");
    reveal_strlit("-");
    reveal_strlit(".");
    reveal_strlit("zip");
    reveal_strlit("gz");
    reveal_strlit(".zip");
    reveal_strlit(".gz");
    let all = archive_file(os, arch, windows);
    let end = "-"@ + os + "-"@ + arch + if windows {
        ".zip"@
    } else {
        ".gz"@
    };
    assert(all.skip(all.len() - end.len()) =~= end);
}

/// The arguments of a command, behind the word for the transport.
pub open spec fn command(word: Seq<char>, list: Seq<Seq<char>>) -> Seq<Option<Seq<char>>> {
    seq![Some(word)] + Seq::new(list.len(), |i: int| Some(list[i]))
}

/// The first argument names the transport, and the others are read as its
/// arguments; a container is one of Podman's where it was asked for by that
/// name.
pub proof fn the_first_argument_names_the_transport(word: Seq<char>, list: Seq<Seq<char>>)
    ensures
        command_fault(command("ssh"@, list)) == ssh_fault(parsed(Transport::Ssh, list, false)),
        command_fault(command("wsl"@, list)) == wsl_fault(parsed(Transport::Wsl, list, false)),
        command_fault(command("podman"@, list)) == container_fault(
            parsed(Transport::Container, list, false),
            true,
        ),
        command_fault(command("docker"@, list)) == container_fault(
            parsed(Transport::Container, list, false),
            false,
        ),
        command_fault(command("container"@, list)) == container_fault(
            parsed(Transport::Container, list, false),
            false,
        ),
        transport_of(word) is None ==> command_fault(command(word, list)) == Some(
            RemoteFault::UnknownTransport(word),
        ),
        command_fault(Seq::empty()) == Some(RemoteFault::NoTransport),
{
    reveal_strlit("ssh");
    reveal_strlit("wsl");
    reveal_strlit("container");
    reveal_strlit("docker");
    reveal_strlit("podman");
    assert("ssh"@[0] == 's' && "wsl"@[0] == 'w' && "docker"@[0] == 'd' && "podman"@[0] == 'p');
    assert forall|first: Seq<char>| #[trigger] rest_texts(command(first, list)) == list by {
        assert(rest_texts(command(first, list)) =~= list);
    }
}

/// A request is for the machine and the paths that were named, over the
/// transport that was.
pub proof fn requests_are_for_what_was_named(
    request: RemoteRequest,
    word: Seq<char>,
    list: Seq<Seq<char>>,
)
    requires
        is_request(request, command(word, list)),
    ensures
        word == "ssh"@ ==> request.options is Ssh,
        word == "wsl"@ ==> request.options is Wsl,
        word == "docker"@ || word == "podman"@ || word == "container"@ ==> request.options
            is Docker,
        transport_of(word) is Some,
{
    reveal_strlit("ssh");
    reveal_strlit("wsl");
    reveal_strlit("container");
    reveal_strlit("docker");
    reveal_strlit("podman");
    assert("ssh"@[0] == 's' && "wsl"@[0] == 'w' && "docker"@[0] == 'd' && "podman"@[0] == 'p');
}

/// The screen of a connection is cleared and framed, and its lines stand inside
/// the frame.
pub proof fn connections_are_shown_inside_a_frame(
    area: Rect,
    name: Seq<char>,
    status: Option<Seq<char>>,
    prompt: Option<Question>,
)
    ensures
        ({
            let all = connection_strokes(area, name, status, prompt);
            &&& all.len() == 3
            &&& all[0] == (Stroke::Clear { area })
            &&& all[1] matches Stroke::Frame { area: frame, .. } && frame == area
            &&& all[2] == (Stroke::Paragraph {
                area: connection_area(area),
                lines: connection_lines(
                    name,
                    status,
                    prompt,
                    connection_area(area).width as int,
                ),
            })
        }),
{
}

/// A question is asked in a frame: first what is asked, then what was typed,
/// then which keys there are.
pub proof fn questions_are_followed_by_their_answers(outer: Rect, buffer: Rect, prompt: Question)
    requires
        outer.x + outer.width <= u16::MAX,
        outer.y + outer.height <= u16::MAX,
        outer.width >= 16,
        outer.height >= 9,
    ensures
        ({
            let all = auth_strokes(outer, buffer, prompt);
            let shown = auth_area(outer).spec_intersection(buffer);
            &&& all.len() == 3
            &&& all[0] == (Stroke::Clear { area: auth_area(outer) })
            &&& all[1] matches Stroke::Frame { area, .. } && area == shown
            &&& all[2] matches Stroke::Paragraph { area, lines } && {
                &&& area == shown.spec_inside_border()
                &&& lines.len() == 3
                &&& lines[0].0 == one_line(prompt.prompt, auth_area(outer).width - 2)
                &&& lines[1].0 == "> "@ + prompt.input
                &&& starts(lines[2].0, "Enter submit \u{b7} Esc cancel"@)
            }
        }),
{
    reveal_strlit("Enter submit \u{b7} Esc cancel");
    reveal_strlit("Enter submit \u{b7} Esc cancel \u{b7} masked");
    let short = "Enter submit \u{b7} Esc cancel"@;
    let long = "Enter submit \u{b7} Esc cancel \u{b7} masked"@;
    assert(short.take(short.len() as int) =~= short);
    assert(long.take(short.len() as int) =~= short);
}

} // verus!
