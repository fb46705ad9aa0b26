//! The tokenizer: turns one line of raw input into an ordered list of token
//! strings, honouring strong quoting, weak quoting, backslash escaping,
//! comments and multi-character operator recognition.
//!
//! The behaviour is defined once, mathematically, by [`spec_lex`]: a fold of
//! the step function [`lex_step`] over the input characters. The executable
//! [`lex`] is proved to return exactly that token sequence.

use vstd::prelude::*;

verus! {

/// The quoting mode the lexer is in. `HereDoc` is declared for completeness
/// but no transition ever enters it; if it were ever reached, input would be
/// handled as in `Normal`.
pub enum LexerQuotingState {
    Normal,
    WeakQuoting,
    StrongQuoting,
    HereDoc,
    Comment,
}

/// Classification of the token currently being accumulated.
pub enum TokenType {
    Word,
    Operator,
    Undetermined,
}

/// Transient lexer state, owned entirely by one call to [`lex`].
struct Lexer {
    state: LexerQuotingState,
    escaping: bool,
    current_token: String,
    tokens: Vec<String>,
    current_token_type: TokenType,
}

/// Mathematical mirror of [`Lexer`]: the quoting mode, the escaping flag, the
/// characters of the in-progress token, its classification, and the tokens
/// already finalized.
#[verifier::ext_equal]
pub ghost struct LexerModel {
    pub state: LexerQuotingState,
    pub escaping: bool,
    pub current: Seq<char>,
    pub kind: TokenType,
    pub tokens: Seq<Seq<char>>,
}

impl View for Lexer {
    type V = LexerModel;

    closed spec fn view(&self) -> LexerModel {
        LexerModel {
            state: self.state,
            escaping: self.escaping,
            current: self.current_token@,
            kind: self.current_token_type,
            tokens: self.tokens.deep_view(),
        }
    }
}

/// Whitespace delimits tokens in `Normal` mode: space, newline, tab.
pub open spec fn is_whitespace(c: char) -> bool {
    c == ' ' || c == '\n' || c == '\t'
}

/// The characters that may begin an operator token. The known operators are
/// `&&`, `||`, `;;`, `<<`, `>>` and `<<-`, so their first characters are
/// `&`, `|`, `;`, `<` and `>`.
pub open spec fn is_operator_starter(c: char) -> bool {
    c == '&' || c == '|' || c == ';' || c == '<' || c == '>'
}

/// Whether some known operator has character `c` at position `pos`. The
/// operators `&&`, `||`, `;;`, `<<`, `>>`, `<<-` have `&`, `|`, `;`, `<`, `>`
/// at positions 0 and 1, and only `<<-` reaches position 2, with `-`.
///
/// The match is positional: it looks only at the length of the token built so
/// far, never at its characters, so maximal munch extends a token whenever any
/// operator continues with `c` at that position.
pub open spec fn operator_char_at(pos: int, c: char) -> bool {
    if pos == 0 || pos == 1 {
        is_operator_starter(c)
    } else if pos == 2 {
        c == '-'
    } else {
        false
    }
}

/// Inside weak quoting a backslash grants escaping power only before these
/// characters; before any other character the backslash itself is preserved
/// verbatim alongside the character that follows it. The double quote is
/// deliberately not among them: a backslash before it keeps the backslash,
/// though the escaped quote still does not end the quoting.
pub open spec fn is_weak_special(c: char) -> bool {
    c == '`' || c == '$' || c == '\\'
}

/// Appending one character to the in-progress token. A token starting with an
/// operator starter is classified `Operator`, any other first character makes
/// it a `Word`; later characters leave the classification unchanged.
pub open spec fn push_char_model(m: LexerModel, c: char) -> LexerModel {
    LexerModel {
        current: m.current.push(c),
        kind: if m.current.len() == 0 {
            if is_operator_starter(c) {
                TokenType::Operator
            } else {
                TokenType::Word
            }
        } else {
            m.kind
        },
        ..m
    }
}

/// Finalizing the in-progress token: a non-empty buffer is pushed onto the
/// token list and reset; an empty buffer is never pushed.
pub open spec fn delimit_model(m: LexerModel) -> LexerModel {
    if m.current.len() > 0 {
        LexerModel {
            current: Seq::empty(),
            kind: TokenType::Undetermined,
            tokens: m.tokens.push(m.current),
            ..m
        }
    } else {
        m
    }
}

/// Whether the next character finalizes the in-progress token: never while
/// quoting, and never while escaping (an escaped character, whitespace
/// included, is taken literally and loses all special meaning); otherwise on
/// whitespace in `Normal` mode; for a `Word`, on an operator starter; for an
/// `Operator`, as soon as no known operator continues with that character at
/// the token's current length.
pub open spec fn should_delimit_model(m: LexerModel, next: char) -> bool {
    if !(m.state is Normal) {
        false
    } else if m.escaping {
        false
    } else if is_whitespace(next) {
        true
    } else {
        match m.kind {
            TokenType::Word => is_operator_starter(next),
            TokenType::Operator => !operator_char_at(m.current.len() as int, next),
            TokenType::Undetermined => false,
        }
    }
}

/// One character in `Normal` mode: an escaped character is taken literally;
/// whitespace contributes nothing; backslash arms escaping; quotes and `#`
/// switch the mode and are dropped; anything else is emitted.
pub open spec fn process_normal_model(m: LexerModel, c: char) -> (LexerModel, Option<char>) {
    if m.escaping {
        (LexerModel { escaping: false, ..m }, Some(c))
    } else if is_whitespace(c) {
        (m, None)
    } else if c == '\\' {
        (LexerModel { escaping: true, ..m }, None)
    } else if c == '\'' {
        (LexerModel { state: LexerQuotingState::StrongQuoting, ..m }, None)
    } else if c == '"' {
        (LexerModel { state: LexerQuotingState::WeakQuoting, ..m }, None)
    } else if c == '#' {
        (LexerModel { state: LexerQuotingState::Comment, ..m }, None)
    } else {
        (m, Some(c))
    }
}

/// One character in `Comment` mode: everything is discarded, forever.
pub open spec fn process_comment_model(m: LexerModel, c: char) -> (LexerModel, Option<char>) {
    (m, None)
}

/// One character in `StrongQuoting` mode: every character is literal except an
/// unescaped single quote, which ends the quoting and contributes nothing.
pub open spec fn process_strong_quote_model(m: LexerModel, c: char) -> (LexerModel, Option<char>) {
    if c == '\'' {
        (LexerModel { state: LexerQuotingState::Normal, ..m }, None)
    } else {
        (m, Some(c))
    }
}

/// One character in `WeakQuoting` mode: an escaped character is taken
/// literally; backslash arms escaping; an unescaped double quote ends the
/// quoting; anything else is emitted.
pub open spec fn process_weak_quote_model(m: LexerModel, c: char) -> (LexerModel, Option<char>) {
    if m.escaping {
        (LexerModel { escaping: false, ..m }, Some(c))
    } else if c == '\\' {
        (LexerModel { escaping: true, ..m }, None)
    } else if c == '"' {
        (LexerModel { state: LexerQuotingState::Normal, ..m }, None)
    } else {
        (m, Some(c))
    }
}

/// Dispatch on the current quoting mode.
pub open spec fn process_char_model(m: LexerModel, c: char) -> (LexerModel, Option<char>) {
    match m.state {
        LexerQuotingState::WeakQuoting => process_weak_quote_model(m, c),
        LexerQuotingState::StrongQuoting => process_strong_quote_model(m, c),
        LexerQuotingState::Comment => process_comment_model(m, c),
        _ => process_normal_model(m, c),
    }
}

/// The full effect of one input character. First, a backslash that armed
/// escaping inside weak quoting is re-inserted into the token when the
/// character that follows is not one of the weak-special set. Then the
/// character may finalize the in-progress token, and finally it is processed
/// under the current mode, appending whatever that emits.
pub open spec fn lex_step(m: LexerModel, c: char) -> LexerModel {
    let m0 = if m.state is WeakQuoting && m.escaping && !is_weak_special(c) {
        push_char_model(m, '\\')
    } else {
        m
    };
    let m1 = if should_delimit_model(m0, c) {
        delimit_model(m0)
    } else {
        m0
    };
    let stepped = process_char_model(m1, c);
    match stepped.1 {
        Some(emitted) => push_char_model(stepped.0, emitted),
        None => stepped.0,
    }
}

/// The lexer starts in `Normal` mode with nothing accumulated.
pub open spec fn initial_lexer_model() -> LexerModel {
    LexerModel {
        state: LexerQuotingState::Normal,
        escaping: false,
        current: Seq::empty(),
        kind: TokenType::Undetermined,
        tokens: Seq::empty(),
    }
}

/// Folding the step function over the input, left to right.
pub open spec fn run_lexer(m: LexerModel, input: Seq<char>) -> LexerModel
    decreases input.len(),
{
    if input.len() == 0 {
        m
    } else {
        run_lexer(lex_step(m, input[0]), input.drop_first())
    }
}

/// The tokens of one line of input: run the lexer over every character, then
/// finalize whatever non-empty token remains.
pub open spec fn spec_lex(input: Seq<char>) -> Seq<Seq<char>> {
    delimit_model(run_lexer(initial_lexer_model(), input)).tokens
}

/// Relies on std's `String::push`: appends the given character to the end of
/// the string.
pub assume_specification[ String::push ](s: &mut String, ch: char)
    ensures
        final(s)@ == old(s)@.push(ch),
;

fn is_whitespace_char(c: char) -> (r: bool)
    ensures
        r == is_whitespace(c),
{
    c == ' ' || c == '\n' || c == '\t'
}

fn is_operator_starter_char(c: char) -> (r: bool)
    ensures
        r == is_operator_starter(c),
{
    c == '&' || c == '|' || c == ';' || c == '<' || c == '>'
}

fn operator_has_char_at(pos: usize, c: char) -> (r: bool)
    ensures
        r == operator_char_at(pos as int, c),
{
    if pos == 0 || pos == 1 {
        is_operator_starter_char(c)
    } else if pos == 2 {
        c == '-'
    } else {
        false
    }
}

impl Lexer {
    fn process_char(&mut self, character: char) -> (emitted: Option<char>)
        ensures
            final(self)@ == process_char_model(old(self)@, character).0,
            emitted == process_char_model(old(self)@, character).1,
    {
        match self.state {
            LexerQuotingState::WeakQuoting => process_char_weak_quote(self, character),
            LexerQuotingState::StrongQuoting => process_char_strong_quote(self, character),
            LexerQuotingState::Comment => process_char_comment(self, character),
            _ => process_char_normal(self, character),
        }
    }

    fn delimit_token(self) -> (r: Lexer)
        ensures
            r@ == delimit_model(self@),
    {
        let ghost orig = self@;
        let mut this = self;
        if !this.current_token.as_str().is_empty() {
            let result = this.current_token.clone();
            this.tokens.push(result);
            this.current_token = String::new();
            this.current_token_type = TokenType::Undetermined;
            proof {
                assert(this@.tokens =~= delimit_model(orig).tokens);
            }
        }
        this
    }

    fn should_delimit(&self, next: char) -> (r: bool)
        ensures
            r == should_delimit_model(self@, next),
    {
        match self.state {
            LexerQuotingState::Normal => {}
            _ => {
                return false;
            }
        }

        if self.escaping {
            return false;
        }

        if is_whitespace_char(next) {
            return true;
        }

        match self.current_token_type {
            TokenType::Word => {
                if is_operator_starter_char(next) {
                    return true;
                }
            }
            TokenType::Operator => {
                let position = self.current_token.as_str().unicode_len();
                return !operator_has_char_at(position, next);
            }
            TokenType::Undetermined => {}
        }

        false
    }

    fn push_char(&mut self, character: char)
        ensures
            final(self)@ == push_char_model(old(self)@, character),
    {
        if self.current_token.as_str().is_empty() {
            if is_operator_starter_char(character) {
                self.current_token_type = TokenType::Operator;
            } else {
                self.current_token_type = TokenType::Word;
            }
        }
        self.current_token.push(character);
    }
}

fn process_char_normal(lexer: &mut Lexer, character: char) -> (emitted: Option<char>)
    ensures
        final(lexer)@ == process_normal_model(old(lexer)@, character).0,
        emitted == process_normal_model(old(lexer)@, character).1,
{
    if lexer.escaping {
        lexer.escaping = false;
        return Some(character);
    }
    if is_whitespace_char(character) {
        return None;
    }
    if character == '\\' {
        lexer.escaping = true;
        return None;
    }
    if character == '\'' {
        lexer.state = LexerQuotingState::StrongQuoting;
        return None;
    }
    if character == '"' {
        lexer.state = LexerQuotingState::WeakQuoting;
        return None;
    }
    if character == '#' {
        lexer.state = LexerQuotingState::Comment;
        return None;
    }
    Some(character)
}

#[allow(unused_variables)]
fn process_char_comment(lexer: &mut Lexer, character: char) -> (emitted: Option<char>)
    ensures
        final(lexer)@ == process_comment_model(old(lexer)@, character).0,
        emitted == process_comment_model(old(lexer)@, character).1,
{
    None
}

fn process_char_strong_quote(lexer: &mut Lexer, character: char) -> (emitted: Option<char>)
    ensures
        final(lexer)@ == process_strong_quote_model(old(lexer)@, character).0,
        emitted == process_strong_quote_model(old(lexer)@, character).1,
{
    if character == '\'' {
        lexer.state = LexerQuotingState::Normal;
        None
    } else {
        Some(character)
    }
}

fn process_char_weak_quote(lexer: &mut Lexer, character: char) -> (emitted: Option<char>)
    ensures
        final(lexer)@ == process_weak_quote_model(old(lexer)@, character).0,
        emitted == process_weak_quote_model(old(lexer)@, character).1,
{
    if lexer.escaping {
        lexer.escaping = false;
        return Some(character);
    }
    if character == '\\' {
        lexer.escaping = true;
        return None;
    }
    if character == '"' {
        lexer.state = LexerQuotingState::Normal;
        return None;
    }
    Some(character)
}

/// Unfolding one step at the end of a prefix of the input.
proof fn lemma_run_lexer_step(m: LexerModel, input: Seq<char>, i: int)
    requires
        0 <= i < input.len(),
    ensures
        run_lexer(m, input.take(i + 1)) == lex_step(run_lexer(m, input.take(i)), input[i]),
    decreases i,
{
    if i == 0 {
        assert(input.take(0) =~= Seq::<char>::empty());
        assert(input.take(1).drop_first() =~= Seq::<char>::empty());
        assert(input.take(1)[0] == input[0]);
        assert(run_lexer(m, input.take(0)) == m);
        assert(run_lexer(lex_step(m, input[0]), Seq::<char>::empty()) == lex_step(m, input[0]));
        assert(run_lexer(m, input.take(1)) == run_lexer(
            lex_step(m, input.take(1)[0]),
            input.take(1).drop_first(),
        ));
    } else {
        let rest = input.drop_first();
        let stepped = lex_step(m, input[0]);
        lemma_run_lexer_step(stepped, rest, i - 1);
        assert(input.take(i + 1)[0] == input[0]);
        assert(input.take(i)[0] == input[0]);
        assert(input.take(i + 1).drop_first() =~= rest.take(i));
        assert(input.take(i).drop_first() =~= rest.take(i - 1));
        assert(rest[i - 1] == input[i]);
        assert(run_lexer(m, input.take(i + 1)) == run_lexer(stepped, rest.take(i)));
        assert(run_lexer(m, input.take(i)) == run_lexer(stepped, rest.take(i - 1)));
    }
}

/// lex expects one logical line, which may or may not be newline terminated;
/// a trailing newline is ordinary whitespace. Every input produces some
/// (possibly empty) token sequence; nothing fails.
pub fn lex(input: &str) -> (tokens: Vec<String>)
    ensures
        tokens.deep_view() == spec_lex(input@),
{
    let mut lexer = Lexer {
        escaping: false,
        state: LexerQuotingState::Normal,
        current_token: String::new(),
        tokens: Vec::new(),
        current_token_type: TokenType::Undetermined,
    };
    proof {
        assert(lexer@.tokens =~= initial_lexer_model().tokens);
        assert(lexer@ =~= initial_lexer_model());
        assert(input@.take(0) =~= Seq::<char>::empty());
    }
    let length = input.unicode_len();
    let mut index: usize = 0;
    while index < length
        invariant
            length == input@.len(),
            index <= length,
            lexer@ == run_lexer(initial_lexer_model(), input@.take(index as int)),
        decreases length - index,
    {
        let character = input.get_char(index);
        let ghost previous = lexer@;

        match lexer.state {
            LexerQuotingState::WeakQuoting => {
                if lexer.escaping && !(character == '`' || character == '$' || character == '\\')
                {
                    lexer.push_char('\\');
                }
            }
            _ => {}
        }

        if lexer.should_delimit(character) {
            lexer = lexer.delimit_token();
        }

        match lexer.process_char(character) {
            Some(chr) => lexer.push_char(chr),
            None => {}
        }

        proof {
            assert(lexer@ == lex_step(previous, character));
            lemma_run_lexer_step(initial_lexer_model(), input@, index as int);
        }
        index += 1;
    }
    proof {
        assert(input@.take(length as int) =~= input@);
    }

    let has_remaining_token = !lexer.current_token.as_str().is_empty();
    if has_remaining_token {
        lexer = lexer.delimit_token();
    }
    lexer.tokens
}

/// Unfolding one step at the end of the whole input.
proof fn lemma_run_lexer_last(m: LexerModel, input: Seq<char>)
    requires
        input.len() > 0,
    ensures
        run_lexer(m, input) == lex_step(run_lexer(m, input.drop_last()), input.last()),
{
    let n = input.len() as int;
    lemma_run_lexer_step(m, input, n - 1);
    assert(input.take(n) =~= input);
    assert(input.take(n - 1) =~= input.drop_last());
}

/// No empty string ever appears among the given tokens.
pub open spec fn all_tokens_nonempty(tokens: Seq<Seq<char>>) -> bool {
    forall|i: int| 0 <= i < tokens.len() ==> #[trigger] tokens[i].len() > 0
}

proof fn lemma_run_lexer_preserves_nonempty(m: LexerModel, input: Seq<char>)
    requires
        all_tokens_nonempty(m.tokens),
    ensures
        all_tokens_nonempty(run_lexer(m, input).tokens),
    decreases input.len(),
{
    if input.len() > 0 {
        let c = input[0];
        let stepped = lex_step(m, c);
        assert(all_tokens_nonempty(stepped.tokens));
        lemma_run_lexer_preserves_nonempty(stepped, input.drop_first());
    }
}

/// Token sequences returned by the tokenizer never contain empty strings: a
/// zero-length buffer is never finalized.
pub proof fn lemma_lex_no_empty_tokens(input: Seq<char>)
    ensures
        all_tokens_nonempty(spec_lex(input)),
{
    lemma_run_lexer_preserves_nonempty(initial_lexer_model(), input);
}

/// A character with a special role for the tokenizer: quoting, escaping,
/// comments, or the start of an operator.
pub open spec fn is_special_char(c: char) -> bool {
    is_operator_starter(c) || c == '\\' || c == '\'' || c == '"' || c == '#'
}

/// The input holds no quote, escape, operator or comment character.
pub open spec fn has_no_special_chars(s: Seq<char>) -> bool {
    forall|i: int| 0 <= i < s.len() ==> !is_special_char(#[trigger] s[i])
}

/// Splitting on runs of whitespace, stated without any lexer machinery: the
/// completed words so far, and the partial word after the last whitespace.
pub open spec fn whitespace_split_state(s: Seq<char>) -> (Seq<Seq<char>>, Seq<char>)
    decreases s.len(),
{
    if s.len() == 0 {
        (Seq::empty(), Seq::empty())
    } else {
        let prefix = whitespace_split_state(s.drop_last());
        let c = s.last();
        if is_whitespace(c) {
            if prefix.1.len() > 0 {
                (prefix.0.push(prefix.1), Seq::empty())
            } else {
                (prefix.0, Seq::empty())
            }
        } else {
            (prefix.0, prefix.1.push(c))
        }
    }
}

/// The maximal runs of non-whitespace characters of `s`, in order.
pub open spec fn split_on_whitespace(s: Seq<char>) -> Seq<Seq<char>> {
    let state = whitespace_split_state(s);
    if state.1.len() > 0 {
        state.0.push(state.1)
    } else {
        state.0
    }
}

proof fn lemma_run_lexer_plain(input: Seq<char>)
    requires
        has_no_special_chars(input),
    ensures
        run_lexer(initial_lexer_model(), input).state is Normal,
        !run_lexer(initial_lexer_model(), input).escaping,
        !(run_lexer(initial_lexer_model(), input).kind is Operator),
        run_lexer(initial_lexer_model(), input).tokens == whitespace_split_state(input).0,
        run_lexer(initial_lexer_model(), input).current == whitespace_split_state(input).1,
    decreases input.len(),
{
    if input.len() > 0 {
        let prefix = input.drop_last();
        let c = input.last();
        assert(has_no_special_chars(prefix)) by {
            assert(forall|i: int|
                0 <= i < prefix.len() ==> #[trigger] prefix[i] == input[i]);
        }
        lemma_run_lexer_plain(prefix);
        lemma_run_lexer_last(initial_lexer_model(), input);
        assert(!is_special_char(c)) by {
            assert(input[input.len() - 1] == c);
        }
    }
}

/// On input containing no quote, escape, operator or comment characters,
/// tokenization equals splitting on runs of whitespace.
pub proof fn lemma_lex_plain_input_splits_on_whitespace(input: Seq<char>)
    requires
        has_no_special_chars(input),
    ensures
        spec_lex(input) == split_on_whitespace(input),
{
    lemma_run_lexer_plain(input);
}

proof fn lemma_run_lexer_strong_quote(m: LexerModel, payload: Seq<char>)
    requires
        m.state is StrongQuoting,
        !m.escaping,
        forall|i: int| 0 <= i < payload.len() ==> payload[i] != '\'',
    ensures
        run_lexer(m, payload).state is StrongQuoting,
        !run_lexer(m, payload).escaping,
        run_lexer(m, payload).current == m.current + payload,
        run_lexer(m, payload).tokens == m.tokens,
    decreases payload.len(),
{
    if payload.len() == 0 {
        assert(m.current + payload =~= m.current);
    } else {
        let prefix = payload.drop_last();
        assert(forall|i: int| 0 <= i < prefix.len() ==> prefix[i] == payload[i]);
        lemma_run_lexer_strong_quote(m, prefix);
        lemma_run_lexer_last(m, payload);
        assert(payload[payload.len() - 1] == payload.last());
        assert(m.current + prefix + seq![payload.last()] =~= m.current + payload);
    }
}

/// Strong quoting never honors escaping: a single-quoted payload passes
/// through byte-for-byte, backslashes included, and the quotes themselves are
/// stripped.
pub proof fn lemma_strong_quoting_is_literal(payload: Seq<char>)
    requires
        payload.len() > 0,
        forall|i: int| 0 <= i < payload.len() ==> payload[i] != '\'',
    ensures
        spec_lex(seq!['\''] + payload + seq!['\'']) == seq![payload],
{
    let input = seq!['\''] + payload + seq!['\''];
    let opened = lex_step(initial_lexer_model(), '\'');
    assert(input.take(1) =~= seq!['\'']);
    assert(input.take(1)[0] == '\'');
    lemma_run_lexer_step(initial_lexer_model(), input, 0);
    assert(input.take(0) =~= Seq::<char>::empty());
    assert(run_lexer(initial_lexer_model(), input.take(1)) == opened);
    let ghost quoted_end = 1 + payload.len() as int;
    let quoted = input.take(quoted_end);
    lemma_run_lexer_split(initial_lexer_model(), quoted, 1);
    assert(quoted.take(1) =~= seq!['\'']);
    assert(quoted.skip(1) =~= payload);
    lemma_run_lexer_strong_quote(opened, payload);
    let inside = run_lexer(initial_lexer_model(), quoted);
    assert(inside.current =~= payload);
    lemma_run_lexer_step(initial_lexer_model(), input, quoted_end);
    assert(input[quoted_end] == '\'');
    assert(input.take(quoted_end + 1) =~= input);
    assert(spec_lex(input) =~= seq![payload]);
}

/// Running the lexer over the whole input equals running it over the rest
/// from wherever a prefix left it.
proof fn lemma_run_lexer_split(m: LexerModel, input: Seq<char>, split_at: int)
    requires
        0 <= split_at <= input.len(),
    ensures
        run_lexer(m, input) == run_lexer(
            run_lexer(m, input.take(split_at)),
            input.skip(split_at),
        ),
    decreases split_at,
{
    if split_at == 0 {
        assert(input.take(0) =~= Seq::<char>::empty());
        assert(input.skip(0) =~= input);
    } else {
        let stepped = lex_step(m, input[0]);
        lemma_run_lexer_split(stepped, input.drop_first(), split_at - 1);
        assert(input.take(split_at)[0] == input[0]);
        assert(input.take(split_at).drop_first() =~= input.drop_first().take(split_at - 1));
        assert(input.skip(split_at) =~= input.drop_first().skip(split_at - 1));
        assert(run_lexer(m, input.take(split_at)) == run_lexer(
            stepped,
            input.take(split_at).drop_first(),
        ));
        assert(run_lexer(m, input) == run_lexer(stepped, input.drop_first()));
    }
}

/// Weak quoting grants escaping power only to the backtick, dollar and
/// backslash characters: a backslash followed by one of those contributes the
/// escaped character alone, while before any other character the backslash
/// itself is preserved verbatim alongside it; quoting continues either way.
pub proof fn lemma_weak_quoting_escapes_only_special(m: LexerModel, c: char)
    requires
        m.state is WeakQuoting,
        !m.escaping,
    ensures
        ({
            let after = lex_step(lex_step(m, '\\'), c);
            after.state is WeakQuoting && !after.escaping && after.tokens == m.tokens
                && after.current == if is_weak_special(c) {
                m.current.push(c)
            } else {
                m.current.push('\\').push(c)
            }
        }),
{
}

/// A comment, once entered, consumes the remainder of the input without
/// producing anything: there is no exit transition back to `Normal`.
pub proof fn lemma_comment_consumes_rest(m: LexerModel, input: Seq<char>)
    requires
        m.state is Comment,
    ensures
        run_lexer(m, input) == m,
    decreases input.len(),
{
    if input.len() > 0 {
        assert(lex_step(m, input[0]) == m);
        lemma_comment_consumes_rest(m, input.drop_first());
    }
}

} // verus!
