//! Tokens of a definition: lexed by `proc_macro2`, held as plain values.
use crate::text::join2;
use crate::types::{accepts_identifier, is_identifier};
use proc_macro2::{Spacing, TokenTree};
use std::rc::Rc;
use vstd::prelude::*;

verus! {

/// `proc_macro2::Span`: a position in the source that a definition was written in.
/// It is carried from the tokens to the messages and is never looked into.
#[verifier::external_type_specification]
#[verifier::external_body]
pub struct ExSpan(proc_macro2::Span);

/// `proc_macro2::TokenStream`: a sequence of token trees.
#[verifier::external_type_specification]
#[verifier::external_body]
pub struct ExTokenStream(proc_macro2::TokenStream);

/// `proc_macro2::LexError`: a text that is not made of Rust tokens.
#[verifier::external_type_specification]
#[verifier::external_body]
pub struct ExLexError(proc_macro2::LexError);

/// The brackets around a group of tokens.
#[derive(Clone, Copy, Debug, PartialEq, Eq, Structural)]
pub enum Delimiter {
    Parenthesis,
    Brace,
    Bracket,
    /// No brackets in the text: a group that a macro expansion has put together.
    Invisible,
}

/// A name. `name` leaves out the `r#` of a raw identifier, so that both spellings
/// are one name; `raw` keeps how it was spelled, and `token` is what is written for it.
pub struct Ident {
    pub name: String,
    pub raw: bool,
    pub span: proc_macro2::Span,
    pub token: Rc<proc_macro2::TokenStream>,
}

/// The characters of a name without the raw prefix.
pub open spec fn unraw(text: Seq<char>) -> Seq<char> {
    if is_raw(text) {
        text.skip(2)
    } else {
        text
    }
}

/// Whether a name is spelled as a raw identifier.
pub open spec fn is_raw(text: Seq<char>) -> bool {
    text.len() >= 2 && text[0] == 'r' && text[1] == '#'
}

impl Ident {
    /// The name as it was spelled.
    pub open spec fn spelled(self) -> Seq<char> {
        if self.raw {
            "r#"@ + self.name@
        } else {
            self.name@
        }
    }

    /// The token trees in the token of the name.
    pub open spec fn held(self) -> Seq<TreeView> {
        stream_trees(*self.token)
    }

    /// Whether the token of the name is the name as it was spelled, and nothing else.
    pub open spec fn is_whole(self) -> bool {
        &&& self.held() == seq![TreeView::Ident(self.spelled(), self.span)]
        &&& self.name@ == unraw(self.spelled())
    }

    /// A name as it was spelled, with its token.
    pub fn new(text: &str, span: proc_macro2::Span, token: proc_macro2::TokenStream) -> (ident:
        Ident)
        ensures
            ident.name@ == unraw(text@),
            ident.raw == is_raw(text@),
            ident.spelled() == text@,
            ident.span == span,
            *ident.token == token,
    {
        let token = Rc::new(token);
        proof {
            reveal_strlit("r#");
        }
        let length: usize = text.unicode_len();
        if starts_raw(text) {
            assert("r#"@ + text@.skip(2) =~= text@);
            Ident { name: text.substring_char(2, length).to_owned(), raw: true, span, token }
        } else {
            Ident { name: text.to_owned(), raw: false, span, token }
        }
    }

    /// Whether the name can be made longer: it is the one in its token.
    pub open spec fn is_extensible(self) -> bool {
        &&& holds_name(*self.token, self.spelled())
        &&& !is_dollar(self.spelled())
        &&& self.name@ == unraw(self.spelled())
    }

    /// Whether the name can be made longer.
    pub fn can_be_extended(&self) -> (extensible: bool)
        ensures
            extensible == self.is_extensible(),
    {
        proof {
            reveal_strlit("r#");
        }
        let found = trees(copy_stream(&self.token));
        if found.len() != 1 {
            return false;
        }
        assert(is_tree(found@[0], stream_trees(*self.token)[0]));
        let spelled = self.spelling();
        if starts_with_dollar(spelled.as_str()) {
            return false;
        }
        if self.raw {
            assert(spelled@.skip(2) =~= self.name@);
        } else if starts_raw(spelled.as_str()) {
            assert(unraw(spelled@).len() != self.name@.len());
            return false;
        }
        match &found[0].1 {
            Tree::Ident(text, _) => *text == spelled,
            _ => false,
        }
    }

    /// The name with more word characters, at the same place.
    pub fn extended(&self, suffix: &str) -> (longer: Ident)
        requires
            self.is_extensible(),
            is_word_end(suffix@),
        ensures
            longer.name@ == self.name@ + suffix@,
            !longer.raw,
            longer.span == self.span,
            longer.held() == seq![TreeView::Ident(longer.name@, longer.span)],
    {
        let name = join2(self.name.as_str(), suffix);
        proof {
            lemma_longer_name(*self, suffix@);
        }
        let token = Rc::new(name_stream(name.as_str(), self.span));
        Ident { name, raw: false, span: self.span, token }
    }

    /// The name without the raw prefix.
    pub fn unraw(&self) -> (text: &str)
        ensures
            text@ == self.name@,
    {
        self.name.as_str()
    }

    /// Writes the name as it was spelled.
    pub fn spelling(&self) -> (text: String)
        ensures
            text@ == self.spelled(),
    {
        if self.raw {
            join2("r#", self.name.as_str())
        } else {
            self.name.clone()
        }
    }

    /// Whether two identifiers are one name.
    pub fn same(&self, other: &Ident) -> (same: bool)
        ensures
            same == (self.name@ == other.name@),
    {
        self.name == other.name
    }
}

/// A name that is the one in its token, with more word characters, is a name.
proof fn lemma_longer_name(ident: Ident, suffix: Seq<char>)
    requires
        ident.is_extensible(),
        is_word_end(suffix),
    ensures
        is_longer_name(ident.name@ + suffix),
{
    let text = ident.name@ + suffix;
    let n = ident.name@.len() as int;
    assert(holds_name(*ident.token, ident.spelled()));
    assert(text.take(n) =~= unraw(ident.spelled()));
    assert(text.skip(n) =~= suffix);
}

impl Clone for Ident {
    fn clone(&self) -> (copy: Ident)
        ensures
            copy == *self,
    {
        Ident {
            name: self.name.clone(),
            raw: self.raw,
            span: self.span,
            token: self.token.clone(),
        }
    }
}

/// One token, or a group of tokens in brackets.
pub enum Token {
    /// A word, and whether it can be a name: it is no keyword.
    Ident(Ident, bool),
    /// A punctuation character, and whether another follows it without a space.
    Punct(char, bool, proc_macro2::Span),
    Literal(String, proc_macro2::Span),
    /// The brackets, what is inside, the places of the opening and closing one, and the stream
    /// that the inside was read from.
    Group(
        Delimiter,
        Vec<Token>,
        proc_macro2::Span,
        proc_macro2::Span,
        proc_macro2::TokenStream,
    ),
}

/// One token tree as `proc_macro2` gives it, taken apart.
enum Tree {
    Ident(String, proc_macro2::Span),
    Punct(char, bool, proc_macro2::Span),
    Literal(String, proc_macro2::Span),
    Group(Delimiter, proc_macro2::TokenStream, proc_macro2::Span, proc_macro2::Span),
}

/// A token tree with the places of the names and literals in it.
pub enum PlacedView {
    Ident(Seq<char>, proc_macro2::Span),
    Punct(char, bool),
    Literal(Seq<char>, proc_macro2::Span),
    Group(Delimiter, Seq<PlacedView>),
}

/// A token without its place in the source.
pub enum Shape {
    Ident(Seq<char>),
    Punct(char, bool),
    Literal(Seq<char>),
    Group(Delimiter, Seq<Shape>),
}

/// A token tree with its place in the source; a group has one for each of its brackets.
pub enum TreeView {
    Ident(Seq<char>, proc_macro2::Span),
    Punct(char, bool, proc_macro2::Span),
    Literal(Seq<char>, proc_macro2::Span),
    Group(Delimiter, Seq<TreeView>, proc_macro2::Span, proc_macro2::Span),
}

/// The token trees that a `proc_macro2::TokenStream` holds, in order.
pub uninterp spec fn stream_trees(stream: proc_macro2::TokenStream) -> Seq<TreeView>;

/// A token tree without the places of punctuation and brackets.
pub open spec fn placed_tree(tree: TreeView) -> PlacedView
    decreases tree,
{
    match tree {
        TreeView::Ident(text, span) => PlacedView::Ident(text, span),
        TreeView::Punct(ch, joint, _) => PlacedView::Punct(ch, joint),
        TreeView::Literal(text, span) => PlacedView::Literal(text, span),
        TreeView::Group(delimiter, inner, _, _) => PlacedView::Group(delimiter, placed(inner)),
    }
}

/// Several token trees without the places of punctuation and brackets.
pub open spec fn placed(trees: Seq<TreeView>) -> Seq<PlacedView>
    decreases trees,
{
    if trees.len() == 0 {
        Seq::empty()
    } else {
        placed(trees.drop_last()).push(placed_tree(trees.last()))
    }
}

/// The token trees that a stream holds, without the places of punctuation and brackets.
pub open spec fn stream_placed(stream: proc_macro2::TokenStream) -> Seq<PlacedView> {
    placed(stream_trees(stream))
}

/// A token tree without any place.
pub open spec fn tree_shape(tree: PlacedView) -> Shape
    decreases tree,
{
    match tree {
        PlacedView::Ident(text, _) => Shape::Ident(text),
        PlacedView::Punct(ch, joint) => Shape::Punct(ch, joint),
        PlacedView::Literal(text, _) => Shape::Literal(text),
        PlacedView::Group(delimiter, inner) => Shape::Group(delimiter, shapes(inner)),
    }
}

/// Several token trees without any place.
pub open spec fn shapes(trees: Seq<PlacedView>) -> Seq<Shape>
    decreases trees,
{
    if trees.len() == 0 {
        Seq::empty()
    } else {
        shapes(trees.drop_last()).push(tree_shape(trees.last()))
    }
}

/// The token trees that a stream holds, without any place.
pub open spec fn stream_shapes(stream: proc_macro2::TokenStream) -> Seq<Shape> {
    shapes(stream_placed(stream))
}

spec fn tree_view(tree: Tree) -> TreeView {
    match tree {
        Tree::Ident(text, span) => TreeView::Ident(text@, span),
        Tree::Punct(ch, joint, span) => TreeView::Punct(ch, joint, span),
        Tree::Literal(text, span) => TreeView::Literal(text@, span),
        Tree::Group(delimiter, stream, open, close) => TreeView::Group(
            delimiter,
            stream_trees(stream),
            open,
            close,
        ),
    }
}

/// Whether a stream holds a token tree alone, but for the places of punctuation and brackets, and
/// the parts are those of the tree.
spec fn is_tree(parts: (proc_macro2::TokenStream, Tree), tree: TreeView) -> bool {
    stream_placed(parts.0) == seq![placed_tree(tree)] && tree_view(parts.1) == tree
}

/// The token tree that a token stands for.
pub open spec fn token_view(token: Token) -> TreeView
    decreases token,
{
    match token {
        Token::Ident(ident, _) => TreeView::Ident(ident.spelled(), ident.span),
        Token::Punct(ch, joint, span) => TreeView::Punct(ch, joint, span),
        Token::Literal(text, span) => TreeView::Literal(text@, span),
        Token::Group(delimiter, inner, open, close, _) => TreeView::Group(
            delimiter,
            tokens_view(inner@),
            open,
            close,
        ),
    }
}

/// The token trees that several tokens stand for, in order.
pub open spec fn tokens_view(tokens: Seq<Token>) -> Seq<TreeView>
    decreases tokens,
{
    if tokens.len() == 0 {
        Seq::empty()
    } else {
        tokens_view(tokens.drop_last()).push(token_view(tokens.last()))
    }
}

/// Whether a word can be a name: it is no keyword, and not the `$crate` of a macro.
pub open spec fn can_be_name(word: Seq<char>) -> bool {
    is_identifier(word) && !is_dollar(word)
}

/// Whether a word starts with a dollar sign, as `$crate` does.
pub open spec fn is_dollar(word: Seq<char>) -> bool {
    word.len() > 0 && word[0] == '$'
}

/// Whether a token says of each word in it, at any depth, whether it can be a name and what is
/// written for it, and of each group what it was read from.
pub open spec fn is_resolved(token: Token) -> bool
    decreases token,
{
    match token {
        Token::Ident(ident, usable) => ident.is_whole() && usable == can_be_name(ident.spelled()),
        Token::Group(_, inner, _, _, source) => tokens_view(inner@) == spliced(
            stream_trees(source),
        ) && are_resolved(inner@),
        _ => true,
    }
}

/// Whether tokens say of each word in them, at any depth, whether it can be a name and what is
/// written for it, and of each group what it was read from.
pub open spec fn are_resolved(tokens: Seq<Token>) -> bool
    decreases tokens,
{
    forall|i: int| 0 <= i < tokens.len() ==> is_resolved(#[trigger] tokens[i])
}

/// Token trees with each invisible group, at any depth, replaced by what is inside.
pub open spec fn spliced(trees: Seq<TreeView>) -> Seq<TreeView>
    decreases trees,
{
    if trees.len() == 0 {
        Seq::empty()
    } else {
        spliced(trees.drop_last()) + match trees.last() {
            TreeView::Group(Delimiter::Invisible, inner, _, _) => spliced(inner),
            TreeView::Group(delimiter, inner, open, close) => seq![
                TreeView::Group(delimiter, spliced(inner), open, close),
            ],
            other => seq![other],
        }
    }
}

/// `TokenStream::from_str` of `proc_macro2`: lexes a text. Nothing is claimed of what it gives:
/// inside of a macro the compiler lexes the text, by the rules of the edition.
#[verifier::external_body]
fn lex(text: &str) -> (r: Result<proc_macro2::TokenStream, proc_macro2::LexError>) {
    text.parse()
}

/// Whether lexing a text may give the token trees.
pub closed spec fn may_lex_to(text: Seq<char>, trees: Seq<TreeView>) -> bool {
    exists|t: &str, r: Result<proc_macro2::TokenStream, proc_macro2::LexError>|
        t@ == text && #[trigger] call_ensures(lex, (t,), r) && (r matches Ok(stream)
            && stream_trees(stream) == trees)
}

/// Whether lexing a text may fail.
pub closed spec fn may_not_lex(text: Seq<char>) -> bool {
    exists|t: &str, r: Result<proc_macro2::TokenStream, proc_macro2::LexError>|
        t@ == text && #[trigger] call_ensures(lex, (t,), r) && r is Err
}

/// Lexes a text.
pub fn lex_text(text: &str) -> (found: Option<proc_macro2::TokenStream>)
    ensures
        found matches Some(stream) ==> may_lex_to(text@, stream_trees(stream)),
        found is None ==> may_not_lex(text@),
{
    let r = lex(text);
    assert(call_ensures(lex, (text,), r));
    match r {
        Ok(stream) => Some(stream),
        Err(_) => None,
    }
}

/// `TokenStream::into_iter` of `proc_macro2`: the token trees of a stream, each as a stream of
/// its own and taken apart.
/// Claimed: one for each tree that the stream holds, in order; the parts have the same text,
/// spacing, brackets, contents and places, and the stream holds that tree alone. Which places
/// punctuation and brackets have in that stream is not stated.
#[verifier::external_body]
fn trees(stream: proc_macro2::TokenStream) -> (r: Vec<(proc_macro2::TokenStream, Tree)>)
    ensures
        r@.len() == stream_trees(stream).len(),
        forall|i: int|
            0 <= i < r@.len() ==> is_tree(#[trigger] r@[i], stream_trees(stream)[i]),
{
    stream.into_iter().map(|tree| (proc_macro2::TokenStream::from(tree.clone()), match tree {
        TokenTree::Ident(t) => Tree::Ident(t.to_string(), t.span()),
        TokenTree::Punct(t) => {
            Tree::Punct(t.as_char(), t.spacing() == Spacing::Joint, t.span())
        },
        TokenTree::Literal(t) => Tree::Literal(t.to_string(), t.span()),
        TokenTree::Group(t) => Tree::Group(match t.delimiter() {
            proc_macro2::Delimiter::Parenthesis => Delimiter::Parenthesis,
            proc_macro2::Delimiter::Brace => Delimiter::Brace,
            proc_macro2::Delimiter::Bracket => Delimiter::Bracket,
            proc_macro2::Delimiter::None => Delimiter::Invisible,
        }, t.stream(), t.span_open(), t.span_close()),
    })).collect()
}

/// `Clone::clone` of `proc_macro2::TokenStream`: the copy holds the same token trees.
#[verifier::external_body]
pub(crate) fn copy_stream(stream: &proc_macro2::TokenStream) -> (copy: proc_macro2::TokenStream)
    ensures
        stream_trees(copy) == stream_trees(*stream),
{
    stream.clone()
}

/// `Span::call_site` of `proc_macro2`: the place of the macro invocation. Nothing is claimed
/// of it: which place that is depends on where the call is made.
#[verifier::external_body]
pub(crate) fn call_site() -> (span: proc_macro2::Span) {
    proc_macro2::Span::call_site()
}

/// `TokenStream::new` of `proc_macro2`: it holds no token tree.
#[verifier::external_body]
pub(crate) fn empty_stream() -> (stream: proc_macro2::TokenStream)
    ensures
        stream_trees(stream) == Seq::<TreeView>::empty(),
{
    proc_macro2::TokenStream::new()
}

/// `Extend::extend` of `proc_macro2::TokenStream` with another stream: its token trees come
/// behind those that were there. Which places punctuation and brackets have then is not stated.
#[verifier::external_body]
pub(crate) fn append_stream(
    stream: &mut proc_macro2::TokenStream,
    more: proc_macro2::TokenStream,
)
    ensures
        stream_placed(*final(stream)) == stream_placed(*old(stream)) + stream_placed(more),
{
    stream.extend(more)
}

/// `Group::new` of `proc_macro2`: one token tree, the brackets with the stream inside. Which
/// places the brackets have is not stated.
#[verifier::external_body]
pub(crate) fn group_stream(delimiter: Delimiter, inner: proc_macro2::TokenStream) -> (stream:
    proc_macro2::TokenStream)
    ensures
        stream_placed(stream) == seq![PlacedView::Group(delimiter, stream_placed(inner))],
{
    let bracket = match delimiter {
        Delimiter::Parenthesis => proc_macro2::Delimiter::Parenthesis,
        Delimiter::Brace => proc_macro2::Delimiter::Brace,
        Delimiter::Bracket => proc_macro2::Delimiter::Bracket,
        Delimiter::Invisible => proc_macro2::Delimiter::None,
    };
    proc_macro2::TokenTree::from(proc_macro2::Group::new(bracket, inner)).into()
}

/// Whether a character can stand at the start of a word.
pub open spec fn is_word_start(ch: char) -> bool {
    'a' <= ch <= 'z' || 'A' <= ch <= 'Z' || ch == '_'
}

/// Whether a character can stand in a word.
pub open spec fn is_word_char(ch: char) -> bool {
    is_word_start(ch) || '0' <= ch <= '9'
}

/// Whether a text can stand at the end of a word.
pub open spec fn is_word_end(text: Seq<char>) -> bool {
    forall|i: int| 0 <= i < text.len() ==> is_word_char(#[trigger] text[i])
}

/// Whether a text is a word of plain letters, digits and underscores.
pub open spec fn is_word(text: Seq<char>) -> bool {
    text.len() > 0 && is_word_start(text[0]) && is_word_end(text)
}

/// Whether a stream holds a name alone.
pub open spec fn holds_name(stream: proc_macro2::TokenStream, name: Seq<char>) -> bool {
    stream_trees(stream).len() == 1 && (stream_trees(stream)[0] matches TreeView::Ident(text, _)
        && text == name)
}

/// Whether a text is a name that some stream holds, and more word characters.
pub open spec fn is_longer_name(text: Seq<char>) -> bool {
    exists|stream: proc_macro2::TokenStream, name: Seq<char>, n: int|
        #[trigger] holds_name(stream, name) && !is_dollar(name) && 0 <= n <= text.len()
            && #[trigger] text.take(n) == unraw(name) && is_word_end(text.skip(n))
}

/// `Ident::new` of `proc_macro2`: one token tree, the name at the place. It panics on a text that
/// is no name; a plain word is one, and so is a name that was read, with more word characters.
#[verifier::external_body]
pub(crate) fn name_stream(text: &str, span: proc_macro2::Span) -> (stream: proc_macro2::TokenStream)
    requires
        is_word(text@) || is_longer_name(text@),
    ensures
        stream_trees(stream) == seq![TreeView::Ident(text@, span)],
{
    proc_macro2::TokenTree::from(proc_macro2::Ident::new(text, span)).into()
}

/// Whether a character is one that Rust punctuation is made of.
pub open spec fn is_punctuation(ch: char) -> bool {
    ch == '=' || ch == '<' || ch == '>' || ch == '!' || ch == '~' || ch == '+' || ch == '-' || ch
        == '*' || ch == '/' || ch == '%' || ch == '^' || ch == '&' || ch == '|' || ch == '@' || ch
        == '.' || ch == ',' || ch == ';' || ch == ':' || ch == '#' || ch == '$' || ch == '?' || ch
        == '\''
}

/// `Punct::new` of `proc_macro2`: one token tree, the character, and whether another follows it
/// without a space. It panics on a character that is no punctuation. Which place it has is not
/// stated.
#[verifier::external_body]
pub(crate) fn punct_stream(ch: char, joint: bool) -> (stream: proc_macro2::TokenStream)
    requires
        is_punctuation(ch),
    ensures
        stream_placed(stream) == seq![PlacedView::Punct(ch, joint)],
{
    let spacing = if joint { Spacing::Joint } else { Spacing::Alone };
    proc_macro2::TokenTree::from(proc_macro2::Punct::new(ch, spacing)).into()
}

/// `Literal::string` of `proc_macro2`: one token tree, a literal. How the text is escaped in it,
/// and which place it has, is not stated.
#[verifier::external_body]
fn string_stream(text: &str) -> (stream: proc_macro2::TokenStream)
    ensures
        is_one_literal(stream_placed(stream)),
{
    proc_macro2::TokenTree::from(proc_macro2::Literal::string(text)).into()
}

/// Whether token trees are one literal.
pub open spec fn is_one_literal(trees: Seq<PlacedView>) -> bool {
    trees.len() == 1 && trees[0] is Literal
}

/// Whether token trees are a string literal that may be written for a text.
pub closed spec fn is_string_of(text: Seq<char>, trees: Seq<PlacedView>) -> bool {
    exists|t: &str, stream: proc_macro2::TokenStream|
        t@ == text && #[trigger] call_ensures(string_stream, (t,), stream) && stream_placed(stream)
            == trees
}

/// A string literal is one token tree.
pub proof fn strings_are_literals(text: Seq<char>, trees: Seq<PlacedView>)
    requires
        is_string_of(text, trees),
    ensures
        is_one_literal(trees),
{
}

/// Writes a text as a string literal.
pub(crate) fn write_string(text: &str) -> (stream: proc_macro2::TokenStream)
    ensures
        is_string_of(text@, stream_placed(stream)),
{
    let stream = string_stream(text);
    assert(call_ensures(string_stream, (text,), stream));
    stream
}

/// Without the places of punctuation and brackets, too, the token trees of two runs come one behind
/// the other.
proof fn lemma_placed_add(left: Seq<TreeView>, right: Seq<TreeView>)
    ensures
        placed(left + right) == placed(left) + placed(right),
    decreases right.len(),
{
    if right.len() == 0 {
        assert(left + right =~= left);
    } else {
        assert((left + right).drop_last() =~= left + right.drop_last());
        lemma_placed_add(left, right.drop_last());
    }
}

/// One token tree, without the places of punctuation and brackets.
pub(crate) proof fn lemma_placed_one(tree: TreeView)
    ensures
        placed(seq![tree]) == seq![placed_tree(tree)],
{
    assert(seq![tree].drop_last() =~= Seq::<TreeView>::empty());
    assert(placed(seq![tree].drop_last()) =~= Seq::<PlacedView>::empty());
    assert(placed(seq![tree]) =~= seq![placed_tree(tree)]);
}

/// Token trees that are one name, without the places of punctuation and brackets, are that name.
proof fn lemma_placed_name(trees: Seq<TreeView>, text: Seq<char>, span: proc_macro2::Span)
    requires
        placed(trees) == seq![PlacedView::Ident(text, span)],
    ensures
        trees == seq![TreeView::Ident(text, span)],
{
    let before = trees.drop_last();
    assert(placed(trees).len() == placed(before).len() + 1);
    assert(placed(before).len() == 0);
    if before.len() > 0 {
        assert(placed(before).len() > 0);
    }
    assert(placed(trees).last() == placed_tree(trees.last()));
    assert(trees =~= seq![TreeView::Ident(text, span)]);
}

/// One token tree, without any place.
pub(crate) proof fn lemma_shapes_one(tree: PlacedView)
    ensures
        shapes(seq![tree]) == seq![tree_shape(tree)],
{
    assert(seq![tree].drop_last() =~= Seq::<PlacedView>::empty());
    assert(shapes(seq![tree].drop_last()) =~= Seq::<Shape>::empty());
    assert(shapes(seq![tree]) =~= seq![tree_shape(tree)]);
}

/// Whether a token tree stands for itself: it is not an invisible group.
spec fn delimited(tree: TreeView) -> bool {
    !(tree matches TreeView::Group(Delimiter::Invisible, _, _, _))
}

proof fn lemma_tokens_view_add(left: Seq<Token>, right: Seq<Token>)
    ensures
        tokens_view(left + right) == tokens_view(left) + tokens_view(right),
    decreases right.len(),
{
    if right.len() == 0 {
        assert(left + right =~= left);
    } else {
        assert((left + right).drop_last() =~= left + right.drop_last());
        lemma_tokens_view_add(left, right.drop_last());
    }
}

/// Without their places, too, the token trees of two runs come one behind the other.
pub proof fn lemma_shapes_add(left: Seq<PlacedView>, right: Seq<PlacedView>)
    ensures
        shapes(left + right) == shapes(left) + shapes(right),
    decreases right.len(),
{
    if right.len() == 0 {
        assert(left + right =~= left);
    } else {
        assert((left + right).drop_last() =~= left + right.drop_last());
        lemma_shapes_add(left, right.drop_last());
    }
}

/// A token tree stands for each token.
proof fn lemma_tokens_view_len(tokens: Seq<Token>)
    ensures
        tokens_view(tokens).len() == tokens.len(),
    decreases tokens.len(),
{
    if tokens.len() > 0 {
        lemma_tokens_view_len(tokens.drop_last());
    }
}

/// The number of tokens in a stream, where an invisible group counts as the tokens inside.
pub fn count_tokens(stream: proc_macro2::TokenStream) -> (count: usize)
    ensures
        count == spliced(stream_trees(stream)).len(),
{
    let tokens = read_tokens(stream);
    proof {
        lemma_tokens_view_len(tokens@);
    }
    tokens.len()
}

/// The token trees that are left of some behind the first `count` tokens in them, where an
/// invisible group counts as the tokens inside. A group that tokens were taken out of is opened.
pub open spec fn trees_behind(trees: Seq<TreeView>, count: int) -> Seq<TreeView>
    decreases trees,
{
    if count <= 0 || trees.len() == 0 {
        trees
    } else {
        match trees[0] {
            TreeView::Group(Delimiter::Invisible, inner, _, _) => if count < spliced(inner).len() {
                trees_behind(inner, count) + trees.skip(1)
            } else {
                trees_behind(trees.skip(1), count - spliced(inner).len())
            },
            _ => trees_behind(trees.skip(1), count - 1),
        }
    }
}

/// The part of a stream behind its first `count` tokens. An invisible group counts as the tokens
/// inside, and stays whole where none of them is among the first.
pub fn stream_behind(stream: proc_macro2::TokenStream, count: usize) -> (behind:
    proc_macro2::TokenStream)
    ensures
        stream_placed(behind) == placed(trees_behind(stream_trees(stream), count as int)),
    decreases stream_trees(stream),
{
    let ghost all = stream_trees(stream);
    let mut rest = trees(stream);
    let mut behind = empty_stream();
    let mut left: usize = count;
    proof {
        assert(all.skip(0) =~= all);
        assert(Seq::<PlacedView>::empty() + placed(trees_behind(all, count as int)) =~= placed(
            trees_behind(all, count as int),
        ));
    }
    while left > 0 && rest.len() > 0
        invariant
            all == stream_trees(stream),
            rest@.len() <= all.len(),
            forall|i: int|
                0 <= i < rest@.len() ==> is_tree(
                    #[trigger] rest@[i],
                    all[all.len() - rest@.len() + i],
                ),
            left > 0 ==> stream_placed(behind) == Seq::<PlacedView>::empty(),
            placed(trees_behind(all, count as int)) == stream_placed(behind) + placed(
                trees_behind(all.skip(all.len() - rest@.len()), left as int),
            ),
        decreases rest@.len(),
    {
        let ghost done = all.len() - rest@.len();
        let ghost pending = rest@;
        let (_, tree) = rest.remove(0);
        proof {
            assert(is_tree(pending[0], all[done]));
            assert(all.skip(done)[0] == all[done]);
            assert(all.skip(done).skip(1) =~= all.skip(done + 1));
            assert(forall|i: int| 0 <= i < rest@.len() ==> #[trigger] rest@[i] == pending[i + 1]);
        }
        match tree {
            Tree::Group(Delimiter::Invisible, inner, _, _) => {
                let size = count_tokens(copy_stream(&inner));
                if left < size {
                    proof {
                        lemma_placed_add(
                            trees_behind(stream_trees(inner), left as int),
                            all.skip(done + 1),
                        );
                    }
                    behind = stream_behind(inner, left);
                    left = 0;
                } else {
                    left = left - size;
                }
            },
            _ => {
                left = left - 1;
            },
        }
    }
    let ghost first = stream_placed(behind);
    let ghost start = all.len() - rest@.len();
    proof {
        assert(placed(all.skip(start).take(0)) =~= Seq::<PlacedView>::empty());
        assert(first + placed(all.skip(start).take(0)) =~= first);
    }
    while rest.len() > 0
        invariant
            0 <= start <= all.len() - rest@.len(),
            rest@.len() <= all.len(),
            forall|i: int|
                0 <= i < rest@.len() ==> is_tree(
                    #[trigger] rest@[i],
                    all[all.len() - rest@.len() + i],
                ),
            stream_placed(behind) == first + placed(
                all.skip(start).take(all.len() - rest@.len() - start),
            ),
        decreases rest@.len(),
    {
        let ghost done = all.len() - rest@.len();
        let ghost pending = rest@;
        let (whole, _) = rest.remove(0);
        proof {
            assert(is_tree(pending[0], all[done]));
            assert(forall|i: int| 0 <= i < rest@.len() ==> #[trigger] rest@[i] == pending[i + 1]);
            assert(all.skip(start).take(done + 1 - start) =~= all.skip(start).take(done - start)
                + seq![all[done]]);
            lemma_placed_add(all.skip(start).take(done - start), seq![all[done]]);
            lemma_placed_one(all[done]);
        }
        append_stream(&mut behind, whole);
    }
    assert(all.skip(start).take(all.len() - start) =~= all.skip(start));
    behind
}

fn starts_raw(word: &str) -> (found: bool)
    ensures
        found == is_raw(word@),
{
    word.unicode_len() >= 2 && word.get_char(0) == 'r' && word.get_char(1) == '#'
}

fn starts_with_dollar(word: &str) -> (found: bool)
    ensures
        found == is_dollar(word@),
{
    word.unicode_len() > 0 && word.get_char(0) == '$'
}

/// Reads the tokens of a stream into plain values. Invisible groups are opened.
pub fn read_tokens(stream: proc_macro2::TokenStream) -> (tokens: Vec<Token>)
    ensures
        tokens_view(tokens@) == spliced(stream_trees(stream)),
        are_resolved(tokens@),
    decreases stream_trees(stream),
{
    let ghost all = stream_trees(stream);
    let mut rest = trees(stream);
    let mut tokens: Vec<Token> = Vec::new();
    proof {
        assert(all.take(0) =~= Seq::<TreeView>::empty());
    }
    while rest.len() > 0
        invariant
            all == stream_trees(stream),
            rest@.len() <= all.len(),
            forall|i: int|
                0 <= i < rest@.len() ==> is_tree(
                    #[trigger] rest@[i],
                    all[all.len() - rest@.len() + i],
                ),
            tokens_view(tokens@) == spliced(all.take(all.len() - rest@.len())),
            are_resolved(tokens@),
        decreases rest@.len(),
    {
        let ghost done = all.len() - rest@.len();
        let ghost before = tokens@;
        let ghost pending = rest@;
        let (whole, tree) = rest.remove(0);
        proof {
            assert(is_tree(pending[0], all[done]));
            assert(all.take(done + 1).drop_last() =~= all.take(done));
            assert(all.take(done + 1).last() == all[done]);
        }
        match tree {
            Tree::Ident(text, span) => {
                proof {
                    lemma_placed_name(stream_trees(whole), text@, span);
                }
                let accepted = accepts_identifier(copy_stream(&whole));
                let usable = accepted && !starts_with_dollar(text.as_str());
                tokens.push(Token::Ident(Ident::new(text.as_str(), span, whole), usable));
            },
            Tree::Punct(ch, joint, span) => tokens.push(Token::Punct(ch, joint, span)),
            Tree::Literal(text, span) => tokens.push(Token::Literal(text, span)),
            Tree::Group(delimiter, stream, open, close) => {
                let mut inner = read_tokens(copy_stream(&stream));
                if delimiter == Delimiter::Invisible {
                    proof {
                        lemma_tokens_view_add(before, inner@);
                    }
                    tokens.append(&mut inner);
                } else {
                    tokens.push(Token::Group(delimiter, inner, open, close, stream));
                }
            },
        }
        proof {
            let tree = all[done];
            assert(all.len() - rest@.len() == done + 1);
            if delimited(tree) {
                assert(tokens@.drop_last() =~= before);
                assert(tokens_view(tokens@) =~= tokens_view(before).push(
                    token_view(tokens@.last()),
                ));
                let single = match tree {
                    TreeView::Group(delimiter, inner, open, close) => TreeView::Group(
                        delimiter,
                        spliced(inner),
                        open,
                        close,
                    ),
                    other => other,
                };
                assert(token_view(tokens@.last()) == single);
                assert(spliced(all.take(done + 1)) =~= spliced(all.take(done)) + seq![single]);
            } else {
                assert(spliced(all.take(done + 1)) =~= spliced(all.take(done)) + spliced(
                    tree->Group_1,
                ));
            }
            assert(forall|i: int| 0 <= i < rest@.len() ==> #[trigger] rest@[i] == pending[i + 1]);
        }
    }
    proof {
        assert(all.take(all.len() as int) =~= all);
    }
    tokens
}

/// Tokens without any place are compared one by one.
proof fn lemma_token_shapes(tokens: Seq<Token>)
    ensures
        shapes(placed(tokens_view(tokens))).len() == tokens.len(),
        forall|i: int|
            0 <= i < tokens.len() ==> #[trigger] shapes(placed(tokens_view(tokens)))[i]
                == tree_shape(placed_tree(token_view(tokens[i]))),
    decreases tokens.len(),
{
    if tokens.len() > 0 {
        let before = tokens.drop_last();
        lemma_token_shapes(before);
        let all = tokens_view(tokens);
        assert(all.drop_last() =~= tokens_view(before));
        assert(placed(all).drop_last() =~= placed(tokens_view(before)));
        assert(shapes(placed(all)) == shapes(placed(tokens_view(before))).push(
            tree_shape(placed_tree(token_view(tokens.last()))),
        ));
        assert forall|i: int| 0 <= i < tokens.len() implies #[trigger] shapes(placed(all))[i]
            == tree_shape(placed_tree(token_view(tokens[i]))) by {
            if i < before.len() {
                assert(shapes(placed(tokens_view(before)))[i] == tree_shape(
                    placed_tree(token_view(before[i])),
                ));
            }
        }
    }
}

/// Whether two lists of tokens are the same but for their places.
pub fn same_tokens(left: &Vec<Token>, right: &Vec<Token>) -> (same: bool)
    ensures
        same == (shapes(placed(tokens_view(left@))) == shapes(placed(tokens_view(right@)))),
    decreases left@,
{
    let ghost first = shapes(placed(tokens_view(left@)));
    let ghost second = shapes(placed(tokens_view(right@)));
    proof {
        lemma_token_shapes(left@);
        lemma_token_shapes(right@);
    }
    if left.len() != right.len() {
        return false;
    }
    let mut i: usize = 0;
    while i < left.len()
        invariant
            i <= left@.len() == right@.len(),
            first == shapes(placed(tokens_view(left@))),
            second == shapes(placed(tokens_view(right@))),
            first.len() == left@.len(),
            second.len() == right@.len(),
            forall|j: int|
                0 <= j < left@.len() ==> #[trigger] first[j] == tree_shape(
                    placed_tree(token_view(left@[j])),
                ),
            forall|j: int|
                0 <= j < right@.len() ==> #[trigger] second[j] == tree_shape(
                    placed_tree(token_view(right@[j])),
                ),
            forall|j: int| 0 <= j < i ==> #[trigger] first[j] == second[j],
        decreases left@.len() - i,
    {
        let same = match (&left[i], &right[i]) {
            (Token::Ident(one, _), Token::Ident(other, _)) => one.spelling() == other.spelling(),
            (Token::Punct(one, joint, _), Token::Punct(other, close, _)) => *one == *other && *joint
                == *close,
            (Token::Literal(one, _), Token::Literal(other, _)) => *one == *other,
            (Token::Group(one, inner, ..), Token::Group(other, tokens, ..)) => *one == *other
                && same_tokens(inner, tokens),
            _ => false,
        };
        assert(same == (first[i as int] == second[i as int]));
        if !same {
            assert(first != second);
            return false;
        }
        i = i + 1;
    }
    assert(first =~= second);
    true
}

} // verus!
