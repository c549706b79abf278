//! The command line: what a key does to the line, and what a line does.
use crate::text;
use vstd::prelude::*;

verus! {

pub const INPUT_BUFFER_SIZE: usize = 512;

/// Something for the serial line, the screen or the processor to do.
#[derive(Clone, Copy)]
pub enum ShellAction {
    /// Let interrupts come again.
    EnableInterrupts,
    /// Let interrupts come again, and wait for one.
    EnableInterruptsAndHalt,
    /// Print a text on the serial line.
    SerialPrint(&'static str),
    /// Print a text and the end of the line on the serial line.
    SerialPrintln(&'static str),
    /// Print a byte on the serial line.
    SerialByte(u8),
    /// Print a byte on the screen.
    ScreenByte(u8),
    /// Print a text as a line on the screen.
    ScreenLine(&'static str),
    /// Show the line as it now stands on the screen.
    RenderInput,
    /// Begin a new line of input on the screen.
    StartPrompt,
    /// Show the first picture again.
    ShowSplash,
}

/// The line that is being typed.
pub struct Shell {
    input: [u8; INPUT_BUFFER_SIZE],
    input_len: usize,
}

impl View for Shell {
    type V = Seq<u8>;

    closed spec fn view(&self) -> Seq<u8> {
        self.input@.take(self.input_len as int)
    }
}

/// A blank or a tab.
pub open spec fn is_blank(byte: u8) -> bool {
    byte == 0x20 || byte == 0x09
}

/// `line` without the blanks and tabs at its start.
pub open spec fn trim_front(line: Seq<u8>) -> Seq<u8>
    decreases line.len(),
{
    if line.len() > 0 && is_blank(line[0]) {
        trim_front(line.skip(1))
    } else {
        line
    }
}

/// `line` without the blanks and tabs at its end.
pub open spec fn trim_back(line: Seq<u8>) -> Seq<u8>
    decreases line.len(),
{
    if line.len() > 0 && is_blank(line.last()) {
        trim_back(line.drop_last())
    } else {
        line
    }
}

/// `line` without the blanks and tabs around it.
pub open spec fn trimmed(line: Seq<u8>) -> Seq<u8> {
    trim_back(trim_front(line))
}

/// What starts a new line of input.
pub open spec fn prompt_actions() -> Seq<ShellAction> {
    seq![ShellAction::SerialPrint("> "), ShellAction::StartPrompt]
}

/// What prints a text on both the screen and the serial line.
pub open spec fn print_actions(line: &'static str) -> Seq<ShellAction> {
    seq![ShellAction::ScreenLine(line), ShellAction::SerialPrintln(line)]
}

/// `help`
pub open spec fn help_word() -> Seq<u8> {
    seq![0x68u8, 0x65u8, 0x6cu8, 0x70u8]
}

/// `clear`
pub open spec fn clear_word() -> Seq<u8> {
    seq![0x63u8, 0x6cu8, 0x65u8, 0x61u8, 0x72u8]
}

/// `version`
pub open spec fn version_word() -> Seq<u8> {
    seq![0x76u8, 0x65u8, 0x72u8, 0x73u8, 0x69u8, 0x6fu8, 0x6eu8]
}

/// `about`
pub open spec fn about_word() -> Seq<u8> {
    seq![0x61u8, 0x62u8, 0x6fu8, 0x75u8, 0x74u8]
}

/// What a line does.
pub open spec fn command_actions(line: Seq<u8>) -> Seq<ShellAction> {
    let command = trimmed(line);
    if command.len() == 0 {
        Seq::empty()
    } else if command == help_word() {
        print_actions("help clear version about")
    } else if command == clear_word() {
        seq![ShellAction::SerialPrintln("clear"), ShellAction::ShowSplash]
    } else if command == version_word() {
        print_actions("CloudOS v0.0.2")
    } else if command == about_word() {
        print_actions("CloudOS: Sistem operasi untuk semua, tanpa perlu perangkat mahal.")
    } else {
        print_actions("Perintah tidak dikenal. Ketik help.")
    }
}

/// The line behind a key.
pub open spec fn line_after(line: Seq<u8>, key: u8) -> Seq<u8> {
    if key == 0x0a {
        Seq::empty()
    } else if key == 0x08 {
        if line.len() > 0 {
            line.drop_last()
        } else {
            line
        }
    } else if line.len() < 512 && key == 0x09 {
        line.push(0x20)
    } else if line.len() < 512 && 0x20 <= key <= 0x7e {
        line.push(key)
    } else {
        line
    }
}

/// What a key does.
pub open spec fn key_actions(line: Seq<u8>, key: u8) -> Seq<ShellAction> {
    if key == 0x0a {
        seq![ShellAction::SerialPrintln(""), ShellAction::ScreenByte(0x0a)] + command_actions(line)
            + prompt_actions()
    } else if key == 0x08 {
        if line.len() > 0 {
            seq![ShellAction::SerialPrint("\x08 \x08"), ShellAction::RenderInput]
        } else {
            Seq::empty()
        }
    } else if line.len() < 512 && key == 0x09 {
        seq![ShellAction::SerialByte(0x20), ShellAction::RenderInput]
    } else if line.len() < 512 && 0x20 <= key <= 0x7e {
        seq![ShellAction::SerialByte(key), ShellAction::RenderInput]
    } else {
        Seq::empty()
    }
}

fn append_actions(target: &mut Vec<ShellAction>, more: &Vec<ShellAction>)
    ensures
        final(target)@ == old(target)@ + more@,
{
    let ghost before = target@;
    let mut index: usize = 0;
    assert(before + more@.take(0) =~= before);
    while index < more.len()
        invariant
            index <= more@.len(),
            target@ == before + more@.take(index as int),
        decreases more@.len() - index,
    {
        target.push(more[index]);
        assert(before + more@.take(index + 1) =~= (before + more@.take(index as int)).push(
            more@[index as int],
        ));
        index = index + 1;
    }
    assert(more@.take(index as int) =~= more@);
}

impl Shell {
    pub closed spec fn wf(&self) -> bool {
        self.input_len <= 512
    }

    pub fn new() -> (r: Self)
        ensures
            r.wf(),
            r@ == Seq::<u8>::empty(),
    {
        let shell = Shell { input: [0; INPUT_BUFFER_SIZE], input_len: 0 };
        assert(shell@ =~= Seq::<u8>::empty());
        shell
    }

    /// The line of a shell that is well formed fits into its buffer.
    pub proof fn lemma_wf(&self)
        requires
            self.wf(),
        ensures
            self@.len() <= 512,
    {
    }

    /// The line as it now stands.
    pub fn line(&self) -> (r: &[u8])
        requires
            self.wf(),
        ensures
            r@ == self@,
    {
        let used: &[u8] = &self.input[0..self.input_len];
        assert(used@ =~= self@);
        used
    }

    fn push(&mut self, byte: u8) -> (r: bool)
        requires
            old(self).wf(),
        ensures
            final(self).wf(),
            r == (old(self)@.len() < 512),
            final(self)@ == if r {
                old(self)@.push(byte)
            } else {
                old(self)@
            },
    {
        if self.input_len >= INPUT_BUFFER_SIZE {
            return false;
        }
        let end: usize = self.input_len;
        self.input[end] = byte;
        self.input_len = end + 1;
        assert(self@ =~= old(self)@.push(byte));
        true
    }

    fn take_key(&mut self, byte: u8) -> (r: Vec<ShellAction>)
        requires
            old(self).wf(),
        ensures
            final(self).wf(),
            final(self)@ == line_after(old(self)@, byte),
            r@ == key_actions(old(self)@, byte),
    {
        let ghost before = self@;
        let mut actions: Vec<ShellAction> = Vec::new();
        if byte == 0x0a {
            actions.push(ShellAction::SerialPrintln(""));
            actions.push(ShellAction::ScreenByte(0x0a));
            let outcome: Vec<ShellAction> = execute(self.line());
            append_actions(&mut actions, &outcome);
            self.input_len = 0;
            let ready: Vec<ShellAction> = prompt();
            append_actions(&mut actions, &ready);
            assert(self@ =~= Seq::<u8>::empty());
            assert(actions@ =~= seq![
                ShellAction::SerialPrintln(""),
                ShellAction::ScreenByte(0x0a),
            ] + command_actions(before) + prompt_actions());
        } else if byte == 0x08 {
            if self.input_len > 0 {
                self.input_len = self.input_len - 1;
                actions.push(ShellAction::SerialPrint("\x08 \x08"));
                actions.push(ShellAction::RenderInput);
                assert(self@ =~= before.drop_last());
            }
            assert(actions@ =~= key_actions(before, byte));
        } else if byte == 0x09 {
            if self.push(0x20) {
                actions.push(ShellAction::SerialByte(0x20));
                actions.push(ShellAction::RenderInput);
            }
            assert(actions@ =~= key_actions(before, byte));
        } else if 0x20 <= byte && byte <= 0x7e {
            if self.push(byte) {
                actions.push(ShellAction::SerialByte(byte));
                actions.push(ShellAction::RenderInput);
            }
            assert(actions@ =~= key_actions(before, byte));
        } else {
            assert(actions@ =~= key_actions(before, byte));
        }
        actions
    }
}

/// One round of the command line: what a key does or, where none waits, how to wait for one.
/// The first round comes behind a `prompt`.
pub fn run(shell: &mut Shell, key: Option<u8>) -> (r: Vec<ShellAction>)
    requires
        old(shell).wf(),
    ensures
        final(shell).wf(),
        match key {
            None => final(shell)@ == old(shell)@ && r@ == seq![
                ShellAction::EnableInterruptsAndHalt,
            ],
            Some(byte) => final(shell)@ == line_after(old(shell)@, byte) && r@ == seq![
                ShellAction::EnableInterrupts,
            ] + key_actions(old(shell)@, byte),
        },
{
    let mut actions: Vec<ShellAction> = Vec::new();
    match key {
        None => {
            actions.push(ShellAction::EnableInterruptsAndHalt);
            assert(actions@ =~= seq![ShellAction::EnableInterruptsAndHalt]);
        },
        Some(byte) => {
            actions.push(ShellAction::EnableInterrupts);
            let more: Vec<ShellAction> = shell.take_key(byte);
            append_actions(&mut actions, &more);
            assert(actions@ =~= seq![ShellAction::EnableInterrupts] + more@);
        },
    }
    actions
}

/// What starts a new line of input.
pub fn prompt() -> (r: Vec<ShellAction>)
    ensures
        r@ == prompt_actions(),
{
    let mut actions: Vec<ShellAction> = Vec::new();
    actions.push(ShellAction::SerialPrint("> "));
    actions.push(ShellAction::StartPrompt);
    assert(actions@ =~= prompt_actions());
    actions
}

/// What a line does.
pub fn execute(input: &[u8]) -> (r: Vec<ShellAction>)
    ensures
        r@ == command_actions(input@),
{
    let command: &[u8] = trim_ascii(input);
    let help: [u8; 4] = [0x68, 0x65, 0x6c, 0x70];
    let clear: [u8; 5] = [0x63, 0x6c, 0x65, 0x61, 0x72];
    let version: [u8; 7] = [0x76, 0x65, 0x72, 0x73, 0x69, 0x6f, 0x6e];
    let about: [u8; 5] = [0x61, 0x62, 0x6f, 0x75, 0x74];
    assert(help@ =~= help_word());
    assert(clear@ =~= clear_word());
    assert(version@ =~= version_word());
    assert(about@ =~= about_word());
    let mut actions: Vec<ShellAction> = Vec::new();
    if command.len() == 0 {
        assert(actions@ =~= Seq::empty());
        return actions;
    }
    if text::same_bytes(command, &help) {
        println("help clear version about")
    } else if text::same_bytes(command, &clear) {
        actions.push(ShellAction::SerialPrintln("clear"));
        actions.push(ShellAction::ShowSplash);
        assert(actions@ =~= seq![ShellAction::SerialPrintln("clear"), ShellAction::ShowSplash]);
        actions
    } else if text::same_bytes(command, &version) {
        println("CloudOS v0.0.2")
    } else if text::same_bytes(command, &about) {
        println("CloudOS: Sistem operasi untuk semua, tanpa perlu perangkat mahal.")
    } else {
        println("Perintah tidak dikenal. Ketik help.")
    }
}

/// What prints a text on both the screen and the serial line.
fn println(line: &'static str) -> (r: Vec<ShellAction>)
    ensures
        r@ == print_actions(line),
{
    let mut actions: Vec<ShellAction> = Vec::new();
    actions.push(ShellAction::ScreenLine(line));
    actions.push(ShellAction::SerialPrintln(line));
    assert(actions@ =~= print_actions(line));
    actions
}

/// The line without the blanks and tabs around it.
pub fn trim_ascii(input: &[u8]) -> (r: &[u8])
    ensures
        r@ == trimmed(input@),
{
    let mut line: &[u8] = input;
    while line.len() > 0 && (line[0] == 0x20 || line[0] == 0x09)
        invariant
            trim_front(line@) == trim_front(input@),
        decreases line@.len(),
    {
        let ghost before = line@;
        line = &line[1..line.len()];
        assert(line@ =~= before.skip(1));
    }
    while line.len() > 0 && (line[line.len() - 1] == 0x20 || line[line.len() - 1] == 0x09)
        invariant
            trim_back(line@) == trimmed(input@),
        decreases line@.len(),
    {
        let ghost before = line@;
        line = &line[0..line.len() - 1];
        assert(line@ =~= before.drop_last());
    }
    line
}

/// Typing a character and taking it back leaves the line as it was.
pub proof fn law_backspace_undoes_a_key(line: Seq<u8>, key: u8)
    requires
        line.len() < 512,
        key == 0x09 || 0x20 <= key <= 0x7e,
    ensures
        line_after(line_after(line, key), 0x08) == line,
{
    assert(line.push(0x20).drop_last() =~= line);
    assert(line.push(key).drop_last() =~= line);
}

/// A line never gets longer than its buffer, and holds nothing but printable ASCII.
pub proof fn law_lines_fit_and_print(line: Seq<u8>, key: u8)
    requires
        line.len() <= 512,
        forall|i: int| 0 <= i < line.len() ==> 0x20 <= #[trigger] line[i] <= 0x7e,
    ensures
        line_after(line, key).len() <= 512,
        forall|i: int|
            0 <= i < line_after(line, key).len() ==> 0x20 <= #[trigger] line_after(line, key)[i]
                <= 0x7e,
{
}

/// What is left of a trimmed line is a part of it with no blank at either end, and what was cut
/// off is blank.
pub proof fn law_trimming_cuts_blanks_only(line: Seq<u8>)
    ensures
        exists|from: int, to: int|
            0 <= from <= to <= line.len() && trimmed(line) == #[trigger] line.subrange(from, to)
                && (forall|i: int| 0 <= i < from ==> is_blank(#[trigger] line[i])) && (forall|i: int|
                to <= i < line.len() ==> is_blank(#[trigger] line[i])),
        trimmed(line).len() > 0 ==> !is_blank(trimmed(line)[0]) && !is_blank(trimmed(line).last()),
{
    let (front, from) = (trim_front(line), line.len() - trim_front(line).len());
    lemma_trim_front(line);
    lemma_trim_back(front);
    let to = from + trim_back(front).len();
    assert(trimmed(line) =~= line.subrange(from, to));
    assert forall|i: int| to <= i < line.len() implies is_blank(#[trigger] line[i]) by {
        assert(line[i] == front[i - from]);
    }
}

proof fn lemma_trim_front(line: Seq<u8>)
    ensures
        trim_front(line).len() <= line.len(),
        trim_front(line) == line.skip(line.len() - trim_front(line).len()),
        forall|i: int|
            0 <= i < line.len() - trim_front(line).len() ==> is_blank(#[trigger] line[i]),
        trim_front(line).len() > 0 ==> !is_blank(trim_front(line)[0]),
    decreases line.len(),
{
    if line.len() > 0 && is_blank(line[0]) {
        let rest = line.skip(1);
        lemma_trim_front(rest);
        assert(line.skip(line.len() - trim_front(line).len()) =~= rest.skip(
            rest.len() - trim_front(rest).len(),
        ));
        assert forall|i: int| 0 <= i < line.len() - trim_front(line).len() implies is_blank(
            #[trigger] line[i],
        ) by {
            if i > 0 {
                assert(line[i] == rest[i - 1]);
            }
        }
    } else {
        assert(line.skip(0) =~= line);
    }
}

proof fn lemma_trim_back(line: Seq<u8>)
    ensures
        trim_back(line).len() <= line.len(),
        trim_back(line) == line.take(trim_back(line).len() as int),
        forall|i: int| trim_back(line).len() <= i < line.len() ==> is_blank(#[trigger] line[i]),
        trim_back(line).len() > 0 ==> !is_blank(trim_back(line).last()),
    decreases line.len(),
{
    if line.len() > 0 && is_blank(line.last()) {
        let rest = line.drop_last();
        lemma_trim_back(rest);
        assert(line.take(trim_back(line).len() as int) =~= rest.take(
            trim_back(rest).len() as int,
        ));
        assert forall|i: int| trim_back(line).len() <= i < line.len() implies is_blank(
            #[trigger] line[i],
        ) by {
            if i < line.len() - 1 {
                assert(line[i] == rest[i]);
            }
        }
    } else {
        assert(line.take(line.len() as int) =~= line);
    }
}

/// The bytes are blanks and tabs.
pub open spec fn all_blank(bytes: Seq<u8>) -> bool {
    forall|i: int| 0 <= i < bytes.len() ==> #[trigger] bytes[i] == 0x20 || bytes[i] == 0x09
}

proof fn lemma_skip_blanks(blanks: Seq<u8>, rest: Seq<u8>)
    requires
        all_blank(blanks),
    ensures
        trim_front(blanks + rest) == trim_front(rest),
    decreases blanks.len(),
{
    if blanks.len() == 0 {
        assert(blanks + rest =~= rest);
    } else {
        assert(blanks[0] == 0x20 || blanks[0] == 0x09);
        assert((blanks + rest).skip(1) =~= blanks.skip(1) + rest);
        assert forall|i: int| 0 <= i < blanks.skip(1).len() implies #[trigger] blanks.skip(1)[i]
            == 0x20 || blanks.skip(1)[i] == 0x09 by {
            assert(blanks[i + 1] == 0x20 || blanks[i + 1] == 0x09);
        }
        lemma_skip_blanks(blanks.skip(1), rest);
    }
}

proof fn lemma_drop_blanks(rest: Seq<u8>, blanks: Seq<u8>)
    requires
        all_blank(blanks),
    ensures
        trim_back(rest + blanks) == trim_back(rest),
    decreases blanks.len(),
{
    if blanks.len() == 0 {
        assert(rest + blanks =~= rest);
    } else {
        let less = blanks.drop_last();
        assert(blanks[blanks.len() - 1] == 0x20 || blanks[blanks.len() - 1] == 0x09);
        assert((rest + blanks).drop_last() =~= rest + less);
        assert forall|i: int| 0 <= i < less.len() implies #[trigger] less[i] == 0x20 || less[i]
            == 0x09 by {
            assert(blanks[i] == 0x20 || blanks[i] == 0x09);
        }
        lemma_drop_blanks(rest, less);
    }
}

/// Blanks and tabs around a word do not matter, and those inside it do: the line is the word. A
/// line of nothing else is no word at all.
pub proof fn law_blanks_around_a_word_do_not_matter(
    before: Seq<u8>,
    word: Seq<u8>,
    after: Seq<u8>,
)
    requires
        all_blank(before),
        all_blank(after),
        word.len() > 0 ==> !(word[0] == 0x20 || word[0] == 0x09) && !(word.last() == 0x20
            || word.last() == 0x09),
    ensures
        trimmed(before + word + after) == word,
        command_actions(before + word + after) == command_actions(word),
{
    let rest = word + after;
    assert(before + word + after =~= before + rest);
    lemma_skip_blanks(before, rest);
    if word.len() > 0 {
        assert(rest[0] == word[0]);
        lemma_drop_blanks(word, after);
        assert(trim_front(word) == word);
    } else {
        assert(rest =~= after);
        lemma_skip_blanks(after, Seq::empty());
        assert(after + Seq::<u8>::empty() =~= after);
        assert(trim_front(Seq::<u8>::empty()) =~= word);
        assert(trim_back(word) =~= word);
    }
}

/// What each word does: `help`, `version` and `about` print their line on the screen and on the
/// serial line, `clear` brings back the first screen, nothing does nothing, and any other word is
/// answered with a hint.
#[verifier::rlimit(40)]
pub proof fn law_words_do_what_they_say(word: Seq<u8>)
    requires
        word.len() > 0 ==> !(word[0] == 0x20 || word[0] == 0x09) && !(word.last() == 0x20
            || word.last() == 0x09),
    ensures
        ({
            let actions = command_actions(word);
            let help = seq![0x68u8, 0x65u8, 0x6cu8, 0x70u8];
            let clear = seq![0x63u8, 0x6cu8, 0x65u8, 0x61u8, 0x72u8];
            let version = seq![0x76u8, 0x65u8, 0x72u8, 0x73u8, 0x69u8, 0x6fu8, 0x6eu8];
            let about = seq![0x61u8, 0x62u8, 0x6fu8, 0x75u8, 0x74u8];
            &&& word.len() == 0 ==> actions.len() == 0
            &&& word == help ==> prints(actions, "help clear version about")
            &&& word == version ==> prints(actions, "CloudOS v0.0.2")
            &&& word == about ==> prints(
                actions,
                "CloudOS: Sistem operasi untuk semua, tanpa perlu perangkat mahal.",
            )
            &&& word == clear ==> actions == seq![
                ShellAction::SerialPrintln("clear"),
                ShellAction::ShowSplash,
            ]
            &&& word.len() > 0 && word != help && word != clear && word != version && word != about
                ==> prints(actions, "Perintah tidak dikenal. Ketik help.")
        }),
{
    let none = Seq::<u8>::empty();
    law_blanks_around_a_word_do_not_matter(none, word, none);
    assert(none + word + none =~= word);
    assert(help_word().len() == 4 && clear_word().len() == 5 && version_word().len() == 7
        && about_word().len() == 5);
    assert(help_word()[0] == 0x68 && clear_word()[0] == 0x63 && version_word()[0] == 0x76
        && about_word()[0] == 0x61);
}

/// `actions` print `line` on the screen and then on the serial line.
pub open spec fn prints(actions: Seq<ShellAction>, line: &'static str) -> bool {
    &&& actions.len() == 2
    &&& actions[0] == ShellAction::ScreenLine(line)
    &&& actions[1] == ShellAction::SerialPrintln(line)
}

/// What a key does to the line: a printable character goes behind it and a tab goes there as a
/// blank, as long as the line has fewer than 512 bytes; a backspace takes the last character away;
/// a line feed starts a new line; any other key does nothing. A key that does nothing to the line
/// shows nothing, but for the line feed.
#[verifier::rlimit(40)]
pub proof fn law_keys_edit_the_line(line: Seq<u8>, key: u8)
    requires
        line.len() <= 512,
    ensures
        ({
            let after = line_after(line, key);
            let actions = key_actions(line, key);
            let typed = 0x20 <= key <= 0x7e || key == 0x09;
            let shown = if key == 0x09 {
                0x20u8
            } else {
                key
            };
            &&& typed && line.len() < 512 ==> after.len() == line.len() + 1 && after.drop_last()
                == line && after.last() == shown && actions == seq![
                ShellAction::SerialByte(shown),
                ShellAction::RenderInput,
            ]
            &&& typed && line.len() == 512 ==> after == line && actions.len() == 0
            &&& key == 0x08 && line.len() > 0 ==> after == line.drop_last() && actions == seq![
                ShellAction::SerialPrint("\x08 \x08"),
                ShellAction::RenderInput,
            ]
            &&& key == 0x08 && line.len() == 0 ==> after == line && actions.len() == 0
            &&& key == 0x0a ==> after.len() == 0 && actions == seq![
                ShellAction::SerialPrintln(""),
                ShellAction::ScreenByte(0x0a),
            ] + command_actions(line) + seq![
                ShellAction::SerialPrint("> "),
                ShellAction::StartPrompt,
            ]
            &&& !typed && key != 0x08 && key != 0x0a ==> after == line && actions.len() == 0
        }),
{
    assert(line.push(0x20).drop_last() =~= line);
    assert(line.push(key).drop_last() =~= line);
}

} // verus!
