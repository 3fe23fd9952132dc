//! Parsing of forms into blocks: the characters of a range of forms are read
//! one by one, and blocks (white space, punctuation, quotations, numbers after
//! a starter character, regex matches) decide where a new form opens and
//! where it closes.

use vstd::prelude::*;

use crate::chars::{
    chars_of, is_ascii_digit_char, is_ascii_punctuation_char, is_whitespace_char, push_char,
    spec_is_ascii_digit, spec_is_ascii_punctuation, spec_is_whitespace, string_of_range,
};
use crate::liz_debug::MessageErr;
use crate::liz_forms::{kit_add_range, kit_del_range, kit_len, lemma_texts_add, lemma_texts_push, lemma_texts_subrange, texts_of};
use crate::liz_regex::{regex_compiles, regex_error_message, regex_find, regex_first_match, regex_test};

verus! {

/// The implied kinds of blocks.
#[derive(Clone, Debug)]
pub enum BlockImply {
    WhiteSpace,
    Punctuation,
    SingleQuotes,
    DoubleQuotes,
}

/// How a block is described by a script.
#[derive(Clone, Debug)]
pub enum BlockBy {
    Regex(String),
    Imply(BlockImply),
    CharNumber(char),
}

/// A block of consecutive characters matched by a regex.
pub fn block_regex(regex: String) -> (r: BlockBy)
    ensures
        r == BlockBy::Regex(regex),
{
    BlockBy::Regex(regex)
}

/// A block of white space.
pub fn block_white_space() -> (r: BlockBy)
    ensures
        r == BlockBy::Imply(BlockImply::WhiteSpace),
{
    BlockBy::Imply(BlockImply::WhiteSpace)
}

/// A block of one ASCII punctuation character.
pub fn block_punctuation() -> (r: BlockBy)
    ensures
        r == BlockBy::Imply(BlockImply::Punctuation),
{
    BlockBy::Imply(BlockImply::Punctuation)
}

/// A block between single quotes, where a backslash escapes a quote.
pub fn block_single_quotes() -> (r: BlockBy)
    ensures
        r == BlockBy::Imply(BlockImply::SingleQuotes),
{
    BlockBy::Imply(BlockImply::SingleQuotes)
}

/// A block between double quotes, where a backslash escapes a quote.
pub fn block_double_quotes() -> (r: BlockBy)
    ensures
        r == BlockBy::Imply(BlockImply::DoubleQuotes),
{
    BlockBy::Imply(BlockImply::DoubleQuotes)
}

/// A block made of a starter character and the ASCII digits that follow it.
pub fn block_char_number(starter: char) -> (r: BlockBy)
    ensures
        r == BlockBy::CharNumber(starter),
{
    BlockBy::CharNumber(starter)
}

/// The state of a parse: the characters read, the forms made so far, the
/// characters gathered for the next form, the place read, where the open
/// block opened (or -1) and whether the character read was gathered.
pub ghost struct ParseState {
    pub origins: Seq<char>,
    pub results: Seq<Seq<char>>,
    pub accrued: Seq<char>,
    pub char_step: int,
    pub opened_at: int,
    pub step_accrued: bool,
}

/// The character at a place, or `'\0'` outside the characters.
pub open spec fn char_at(origins: Seq<char>, place: int) -> char {
    if 0 <= place < origins.len() {
        origins[place]
    } else {
        '\0'
    }
}

/// The character at the place read, shifted by `delta`.
pub open spec fn char_delta(st: ParseState, delta: int) -> char {
    char_at(st.origins, st.char_step + delta)
}

/// Makes a form of the gathered characters, if there are any.
pub open spec fn st_commit(st: ParseState) -> ParseState {
    if st.accrued.len() > 0 {
        ParseState { results: st.results.push(st.accrued), accrued: Seq::empty(), ..st }
    } else {
        st
    }
}

/// Gathers the character read, once per place.
pub open spec fn st_accrue(st: ParseState) -> ParseState {
    if !st.step_accrued {
        ParseState { accrued: st.accrued.push(char_delta(st, 0)), step_accrued: true, ..st }
    } else {
        st
    }
}

/// The state where the start of a parse of the given characters stands.
pub open spec fn start_state(origins: Seq<char>) -> ParseState {
    ParseState {
        origins,
        results: Seq::empty(),
        accrued: Seq::empty(),
        char_step: 0,
        opened_at: -1,
        step_accrued: false,
    }
}

/// What a block decides at each place of a parse.
pub trait BlockTrait {
    /// Whether the block opens at the place read.
    spec fn spec_opens(&self, st: ParseState) -> bool;

    /// Whether opening makes a form of what was gathered before.
    spec fn spec_opens_commit(&self) -> bool;

    /// Whether the open block closes at the place read.
    spec fn spec_closes(&self, st: ParseState) -> bool;

    /// Whether closing makes a form of what was gathered.
    spec fn spec_closes_commit(&self) -> bool;

    /// Whether the block can be asked (a regex block needs a valid pattern).
    spec fn spec_ready(&self) -> bool;

    fn opens(&self, helper: &ParseHelper) -> (r: bool)
        requires
            self.spec_ready(),
        ensures
            r == self.spec_opens(helper@),
    ;

    fn opens_commit(&self) -> (r: bool)
        ensures
            r == self.spec_opens_commit(),
    ;

    fn closes(&self, helper: &ParseHelper) -> (r: bool)
        requires
            self.spec_ready(),
        ensures
            r == self.spec_closes(helper@),
    ;

    fn closes_commit(&self) -> (r: bool)
        ensures
            r == self.spec_closes_commit(),
    ;
}

/// A block of what a regex matches: it opens, making a form of what was
/// gathered before, where the leftmost match of the regex in the characters
/// from the place read on starts right there and is not empty, and closes,
/// making a form of the match, at the last character of that match.
pub struct BlockRegex {
    pub regex: String,
}

impl BlockTrait for BlockRegex {
    open spec fn spec_opens(&self, st: ParseState) -> bool {
        if 0 <= st.char_step <= st.origins.len() {
            match regex_first_match(self.regex@, st.origins.skip(st.char_step)) {
                Some((start, matched)) => start == 0 && matched.len() > 0,
                None => false,
            }
        } else {
            false
        }
    }

    open spec fn spec_opens_commit(&self) -> bool {
        true
    }

    open spec fn spec_closes(&self, st: ParseState) -> bool {
        if 0 <= st.opened_at <= st.char_step < st.origins.len() {
            match regex_first_match(self.regex@, st.origins.skip(st.opened_at)) {
                Some((start, matched)) => !(start == 0 && matched.len() > st.char_step + 1 - st.opened_at),
                None => true,
            }
        } else {
            true
        }
    }

    open spec fn spec_closes_commit(&self) -> bool {
        true
    }

    open spec fn spec_ready(&self) -> bool {
        regex_compiles(self.regex@)
    }

    fn opens(&self, helper: &ParseHelper) -> (r: bool) {
        proof {
            use_type_invariant(helper);
        }
        let size = helper.origins.len();
        let step = helper.char_step as usize;
        if step > size {
            return false;
        }
        let rest = string_of_range(&helper.origins, step, size);
        match regex_find(self.regex.as_str(), rest.as_str()) {
            Ok(Some((start, matched))) => start == 0 && !matched.as_str().is_empty(),
            Ok(None) => false,
            Err(_) => false,
        }
    }

    fn opens_commit(&self) -> (r: bool) {
        true
    }

    fn closes(&self, helper: &ParseHelper) -> (r: bool) {
        proof {
            use_type_invariant(helper);
        }
        let size = helper.origins.len();
        let step = helper.char_step;
        let opened = helper.opened_at;
        if !(0 <= opened && opened <= step && (step as usize) < size) {
            return true;
        }
        let rest = string_of_range(&helper.origins, opened as usize, size);
        match regex_find(self.regex.as_str(), rest.as_str()) {
            Ok(Some((start, matched))) => {
                let span = (step - opened) as usize + 1;
                !(start == 0 && matched.as_str().unicode_len() > span)
            },
            Ok(None) => true,
            Err(_) => true,
        }
    }

    fn closes_commit(&self) -> (r: bool) {
        true
    }
}

/// A block of white space.
pub struct BlockWhiteSpace {}

impl BlockTrait for BlockWhiteSpace {
    open spec fn spec_opens(&self, st: ParseState) -> bool {
        spec_is_whitespace(char_delta(st, 0))
    }

    open spec fn spec_opens_commit(&self) -> bool {
        true
    }

    open spec fn spec_closes(&self, st: ParseState) -> bool {
        !spec_is_whitespace(char_delta(st, 1))
    }

    open spec fn spec_closes_commit(&self) -> bool {
        true
    }

    open spec fn spec_ready(&self) -> bool {
        true
    }

    fn opens(&self, helper: &ParseHelper) -> (r: bool) {
        is_whitespace_char(helper.get_char_step())
    }

    fn opens_commit(&self) -> (r: bool) {
        true
    }

    fn closes(&self, helper: &ParseHelper) -> (r: bool) {
        !is_whitespace_char(helper.get_char_next())
    }

    fn closes_commit(&self) -> (r: bool) {
        true
    }
}

/// A block of one ASCII punctuation character.
pub struct BlockPunctuation {}

impl BlockTrait for BlockPunctuation {
    open spec fn spec_opens(&self, st: ParseState) -> bool {
        spec_is_ascii_punctuation(char_delta(st, 0))
    }

    open spec fn spec_opens_commit(&self) -> bool {
        true
    }

    open spec fn spec_closes(&self, st: ParseState) -> bool {
        true
    }

    open spec fn spec_closes_commit(&self) -> bool {
        true
    }

    open spec fn spec_ready(&self) -> bool {
        true
    }

    fn opens(&self, helper: &ParseHelper) -> (r: bool) {
        is_ascii_punctuation_char(helper.get_char_step())
    }

    fn opens_commit(&self) -> (r: bool) {
        true
    }

    fn closes(&self, helper: &ParseHelper) -> (r: bool) {
        true
    }

    fn closes_commit(&self) -> (r: bool) {
        true
    }
}

/// A block between an opener and a closer; a closer right after the escape
/// character does not close, unless that escape is itself escaped.
pub struct BlockQuotation {
    pub opener: char,
    pub closer: char,
    pub escape: char,
}

impl BlockTrait for BlockQuotation {
    open spec fn spec_opens(&self, st: ParseState) -> bool {
        char_delta(st, 0) == self.opener
    }

    open spec fn spec_opens_commit(&self) -> bool {
        true
    }

    open spec fn spec_closes(&self, st: ParseState) -> bool {
        &&& st.char_step != st.opened_at
        &&& char_delta(st, 0) == self.closer
        &&& (char_delta(st, -1) != self.escape || (char_delta(st, -1) == self.escape && char_delta(
            st,
            -2,
        ) == self.escape))
    }

    open spec fn spec_closes_commit(&self) -> bool {
        true
    }

    open spec fn spec_ready(&self) -> bool {
        true
    }

    fn opens(&self, helper: &ParseHelper) -> (r: bool) {
        helper.get_char_step() == self.opener
    }

    fn opens_commit(&self) -> (r: bool) {
        true
    }

    fn closes(&self, helper: &ParseHelper) -> (r: bool) {
        helper.well_formed();
        !helper.is_step_on_opened() && helper.get_char_step() == self.closer && (
        helper.get_char_delta(-1) != self.escape || (helper.get_char_delta(-1) == self.escape
            && helper.get_char_delta(-2) == self.escape))
    }

    fn closes_commit(&self) -> (r: bool) {
        true
    }
}

/// A block of a starter character and the ASCII digits right after it.
pub struct BlockCharNumber {
    pub starter: char,
}

impl BlockTrait for BlockCharNumber {
    open spec fn spec_opens(&self, st: ParseState) -> bool {
        char_delta(st, 0) == self.starter
    }

    open spec fn spec_opens_commit(&self) -> bool {
        true
    }

    open spec fn spec_closes(&self, st: ParseState) -> bool {
        !spec_is_ascii_digit(char_delta(st, 1))
    }

    open spec fn spec_closes_commit(&self) -> bool {
        true
    }

    open spec fn spec_ready(&self) -> bool {
        true
    }

    fn opens(&self, helper: &ParseHelper) -> (r: bool) {
        helper.get_char_step() == self.starter
    }

    fn opens_commit(&self) -> (r: bool) {
        true
    }

    fn closes(&self, helper: &ParseHelper) -> (r: bool) {
        !is_ascii_digit_char(helper.get_char_next())
    }

    fn closes_commit(&self) -> (r: bool) {
        true
    }
}

/// A block ready to decide a parse.
pub enum BlockKind {
    Regex(BlockRegex),
    WhiteSpace(BlockWhiteSpace),
    Punctuation(BlockPunctuation),
    Quotation(BlockQuotation),
    CharNumber(BlockCharNumber),
}

impl BlockTrait for BlockKind {
    open spec fn spec_opens(&self, st: ParseState) -> bool {
        match self {
            BlockKind::Regex(b) => b.spec_opens(st),
            BlockKind::WhiteSpace(b) => b.spec_opens(st),
            BlockKind::Punctuation(b) => b.spec_opens(st),
            BlockKind::Quotation(b) => b.spec_opens(st),
            BlockKind::CharNumber(b) => b.spec_opens(st),
        }
    }

    open spec fn spec_opens_commit(&self) -> bool {
        match self {
            BlockKind::Regex(b) => b.spec_opens_commit(),
            BlockKind::WhiteSpace(b) => b.spec_opens_commit(),
            BlockKind::Punctuation(b) => b.spec_opens_commit(),
            BlockKind::Quotation(b) => b.spec_opens_commit(),
            BlockKind::CharNumber(b) => b.spec_opens_commit(),
        }
    }

    open spec fn spec_closes(&self, st: ParseState) -> bool {
        match self {
            BlockKind::Regex(b) => b.spec_closes(st),
            BlockKind::WhiteSpace(b) => b.spec_closes(st),
            BlockKind::Punctuation(b) => b.spec_closes(st),
            BlockKind::Quotation(b) => b.spec_closes(st),
            BlockKind::CharNumber(b) => b.spec_closes(st),
        }
    }

    open spec fn spec_closes_commit(&self) -> bool {
        match self {
            BlockKind::Regex(b) => b.spec_closes_commit(),
            BlockKind::WhiteSpace(b) => b.spec_closes_commit(),
            BlockKind::Punctuation(b) => b.spec_closes_commit(),
            BlockKind::Quotation(b) => b.spec_closes_commit(),
            BlockKind::CharNumber(b) => b.spec_closes_commit(),
        }
    }

    open spec fn spec_ready(&self) -> bool {
        match self {
            BlockKind::Regex(b) => b.spec_ready(),
            _ => true,
        }
    }

    fn opens(&self, helper: &ParseHelper) -> (r: bool) {
        match self {
            BlockKind::Regex(b) => b.opens(helper),
            BlockKind::WhiteSpace(b) => b.opens(helper),
            BlockKind::Punctuation(b) => b.opens(helper),
            BlockKind::Quotation(b) => b.opens(helper),
            BlockKind::CharNumber(b) => b.opens(helper),
        }
    }

    fn opens_commit(&self) -> (r: bool) {
        match self {
            BlockKind::Regex(b) => b.opens_commit(),
            BlockKind::WhiteSpace(b) => b.opens_commit(),
            BlockKind::Punctuation(b) => b.opens_commit(),
            BlockKind::Quotation(b) => b.opens_commit(),
            BlockKind::CharNumber(b) => b.opens_commit(),
        }
    }

    fn closes(&self, helper: &ParseHelper) -> (r: bool) {
        match self {
            BlockKind::Regex(b) => b.closes(helper),
            BlockKind::WhiteSpace(b) => b.closes(helper),
            BlockKind::Punctuation(b) => b.closes(helper),
            BlockKind::Quotation(b) => b.closes(helper),
            BlockKind::CharNumber(b) => b.closes(helper),
        }
    }

    fn closes_commit(&self) -> (r: bool) {
        match self {
            BlockKind::Regex(b) => b.closes_commit(),
            BlockKind::WhiteSpace(b) => b.closes_commit(),
            BlockKind::Punctuation(b) => b.closes_commit(),
            BlockKind::Quotation(b) => b.closes_commit(),
            BlockKind::CharNumber(b) => b.closes_commit(),
        }
    }
}

/// The block that a description stands for.
pub open spec fn kind_of(block: BlockBy) -> BlockKind {
    match block {
        BlockBy::Regex(regex) => BlockKind::Regex(BlockRegex { regex }),
        BlockBy::Imply(BlockImply::WhiteSpace) => BlockKind::WhiteSpace(BlockWhiteSpace {  }),
        BlockBy::Imply(BlockImply::Punctuation) => BlockKind::Punctuation(BlockPunctuation {  }),
        BlockBy::Imply(BlockImply::SingleQuotes) => BlockKind::Quotation(
            BlockQuotation { opener: '\'', closer: '\'', escape: '\\' },
        ),
        BlockBy::Imply(BlockImply::DoubleQuotes) => BlockKind::Quotation(
            BlockQuotation { opener: '"', closer: '"', escape: '\\' },
        ),
        BlockBy::CharNumber(starter) => BlockKind::CharNumber(BlockCharNumber { starter }),
    }
}

/// The blocks that descriptions stand for.
pub open spec fn kinds_of(blocks: Seq<BlockBy>) -> Seq<BlockKind> {
    blocks.map_values(|b: BlockBy| kind_of(b))
}

/// Whether a description can be made a block: a regex must compile.
pub open spec fn block_valid(block: BlockBy) -> bool {
    block matches BlockBy::Regex(regex) ==> regex_compiles(regex@)
}

impl BlockBy {
    /// The block that this description stands for; fails on a regex that
    /// does not compile.
    pub fn get_trait(self) -> (r: Result<BlockKind, MessageErr>)
        ensures
            r is Ok <==> block_valid(self),
            r matches Ok(kind) ==> kind == kind_of(self) && kind.spec_ready(),
    {
        match self {
            BlockBy::Regex(regex) => {
                match regex_test(regex.as_str(), "") {
                    Ok(_) => Ok(BlockKind::Regex(BlockRegex { regex })),
                    Err(err) => Err(MessageErr::of(regex_error_message(&err))),
                }
            },
            BlockBy::Imply(imply) => match imply {
                BlockImply::WhiteSpace => Ok(BlockKind::WhiteSpace(BlockWhiteSpace {  })),
                BlockImply::Punctuation => Ok(BlockKind::Punctuation(BlockPunctuation {  })),
                BlockImply::SingleQuotes => Ok(
                    BlockKind::Quotation(BlockQuotation { opener: '\'', closer: '\'', escape: '\\' }),
                ),
                BlockImply::DoubleQuotes => Ok(
                    BlockKind::Quotation(BlockQuotation { opener: '"', closer: '"', escape: '\\' }),
                ),
            },
            BlockBy::CharNumber(starter) => Ok(BlockKind::CharNumber(BlockCharNumber { starter })),
        }
    }
}

/// The blocks of the descriptions, in order; fails on the first regex that
/// does not compile.
pub fn get_parsers(blocks: Vec<BlockBy>) -> (r: Result<Vec<BlockKind>, MessageErr>)
    ensures
        r is Ok <==> forall|i: int| 0 <= i < blocks@.len() ==> block_valid(#[trigger] blocks@[i]),
        r matches Ok(kinds) ==> kinds@ == kinds_of(blocks@) && forall|i: int|
            0 <= i < kinds@.len() ==> (#[trigger] kinds@[i]).spec_ready(),
{
    let ghost all = blocks@;
    let mut pending = blocks;
    let mut reversed: Vec<BlockKind> = Vec::new();
    // Take the descriptions from the last; a failure on any of them fails the whole.
    while pending.len() > 0
        invariant
            all == blocks@,
            pending@ == all.take(pending@.len() as int),
            pending@.len() <= all.len(),
            reversed@.len() == all.len() - pending@.len(),
            forall|j: int|
                0 <= j < reversed@.len() ==> #[trigger] reversed@[j] == kind_of(
                    all[all.len() - 1 - j],
                ) && reversed@[j].spec_ready(),
            forall|j: int| pending@.len() <= j < all.len() ==> block_valid(#[trigger] all[j]),
        decreases pending@.len(),
    {
        let ghost n = pending@.len();
        let block = pending.pop().unwrap();
        assert(block == all[n - 1]);
        match block.get_trait() {
            Ok(kind) => reversed.push(kind),
            Err(err) => {
                assert(!block_valid(blocks@[n - 1]));
                return Err(err);
            },
        }
        assert(pending@ =~= all.take(n - 1));
    }
    let mut result: Vec<BlockKind> = Vec::new();
    while reversed.len() > 0
        invariant
            reversed@.len() + result@.len() == all.len(),
            forall|j: int|
                0 <= j < reversed@.len() ==> #[trigger] reversed@[j] == kind_of(
                    all[all.len() - 1 - j],
                ) && reversed@[j].spec_ready(),
            forall|j: int|
                0 <= j < result@.len() ==> #[trigger] result@[j] == kind_of(all[j])
                    && result@[j].spec_ready(),
        decreases reversed@.len(),
    {
        let kind = reversed.pop().unwrap();
        result.push(kind);
    }
    assert(result@ =~= kinds_of(all));
    Ok(result)
}

/// The reader of a parse.
pub struct ParseHelper {
    origins: Vec<char>,
    results: Vec<String>,
    accrued: String,
    char_step: i64,
    char_size: i64,
    opened_at: i64,
    step_accrued: bool,
}

impl View for ParseHelper {
    type V = ParseState;

    closed spec fn view(&self) -> ParseState {
        ParseState {
            origins: self.origins@,
            results: texts_of(self.results@),
            accrued: self.accrued@,
            char_step: self.char_step as int,
            opened_at: self.opened_at as int,
            step_accrued: self.step_accrued,
        }
    }
}

/// Whether a parse state can be reached: the place read is within the
/// characters (or 0 when there are none) and their count fits an `i64`.
pub open spec fn state_wf(st: ParseState) -> bool {
    &&& st.origins.len() <= i64::MAX
    &&& 0 <= st.char_step
    &&& (st.char_step < st.origins.len() || st.char_step == 0)
    &&& i64::MIN <= st.opened_at <= i64::MAX
}

impl ParseHelper {
    #[verifier::type_invariant]
    spec fn inv(self) -> bool {
        &&& self.char_size == self.origins@.len()
        &&& 0 <= self.char_step
        &&& (self.char_step < self.char_size || self.char_step == 0)
    }

    /// Whether the reader is in a reachable state.
    pub fn well_formed(&self) -> (r: bool)
        ensures
            r && state_wf(self@),
    {
        proof {
            use_type_invariant(self);
        }
        true
    }

    fn new(forms: Vec<String>) -> (r: ParseHelper)
        requires
            texts_of(forms@).flatten().len() <= i64::MAX,
        ensures
            r@ == start_state(texts_of(forms@).flatten()),
    {
        let mut origins: Vec<char> = Vec::new();
        let mut k: usize = 0;
        while k < forms.len()
            invariant
                k <= forms@.len(),
                origins@ == texts_of(forms@.take(k as int)).flatten(),
            decreases forms@.len() - k,
        {
            let chars = chars_of(forms[k].as_str());
            let mut j: usize = 0;
            let ghost before = origins@;
            while j < chars.len()
                invariant
                    j <= chars@.len(),
                    origins@ == before + chars@.take(j as int),
                decreases chars@.len() - j,
            {
                origins.push(chars[j]);
                assert(chars@.take(j + 1) == chars@.take(j as int).push(chars@[j as int]));
                j = j + 1;
            }
            proof {
                assert(chars@.take(chars@.len() as int) == chars@);
                assert(forms@.take(k + 1) == forms@.take(k as int).push(forms@[k as int]));
                lemma_texts_push(forms@.take(k as int), forms@[k as int]);
                texts_of(forms@.take(k as int)).lemma_flatten_push(forms@[k as int]@);
            }
            k = k + 1;
        }
        assert(forms@.take(forms@.len() as int) == forms@);
        let char_size = origins.len() as i64;
        let results: Vec<String> = Vec::new();
        assert(texts_of(results@) =~= Seq::<Seq<char>>::empty());
        ParseHelper {
            origins,
            results,
            accrued: String::new(),
            char_step: 0,
            char_size,
            opened_at: -1,
            step_accrued: false,
        }
    }

    /// The character at a place, or `'\0'` outside the characters.
    pub fn get_char_at(&self, place: i64) -> (r: char)
        ensures
            r == char_at(self@.origins, place as int),
    {
        proof {
            use_type_invariant(self);
        }
        let size = self.origins.len();
        if place >= 0 && place < self.char_size {
            assert(place < size);
            self.origins[place as usize]
        } else {
            '\0'
        }
    }

    /// The character before the place read.
    pub fn get_char_past(&self) -> (r: char)
        ensures
            r == char_delta(self@, -1),
    {
        proof {
            use_type_invariant(self);
        }
        self.get_char_at(self.char_step - 1)
    }

    /// The character at the place read.
    pub fn get_char_step(&self) -> (r: char)
        ensures
            r == char_delta(self@, 0),
    {
        self.get_char_at(self.char_step)
    }

    /// The character after the place read.
    pub fn get_char_next(&self) -> (r: char)
        ensures
            r == char_delta(self@, 1),
    {
        proof {
            use_type_invariant(self);
        }
        self.get_char_at(self.char_step + 1)
    }

    /// The character `delta` places from the place read.
    pub fn get_char_delta(&self, delta: i64) -> (r: char)
        requires
            i64::MIN <= self@.char_step + delta <= i64::MAX,
        ensures
            r == char_delta(self@, delta as int),
    {
        self.get_char_at(self.char_step + delta)
    }

    /// Marks the place read as where the open block opened.
    pub fn set_opened(&mut self)
        ensures
            final(self)@ == (ParseState { opened_at: old(self)@.char_step, ..old(self)@ }),
    {
        proof {
            use_type_invariant(&*self);
        }
        self.opened_at = self.char_step;
    }

    /// Marks that no block is open.
    pub fn set_closed(&mut self)
        ensures
            final(self)@ == (ParseState { opened_at: -1, ..old(self)@ }),
    {
        proof {
            use_type_invariant(&*self);
        }
        self.opened_at = -1;
    }

    /// Sets where the open block opened.
    pub fn set_opened_at(&mut self, place: i64)
        ensures
            final(self)@ == (ParseState { opened_at: place as int, ..old(self)@ }),
    {
        proof {
            use_type_invariant(&*self);
        }
        self.opened_at = place;
    }

    /// Where the open block opened, or -1.
    pub fn get_opened_at(&self) -> (r: i64)
        ensures
            r == self@.opened_at,
    {
        self.opened_at
    }

    /// Whether the place read is where the open block opened.
    pub fn is_step_on_opened(&self) -> (r: bool)
        ensures
            r == (self@.char_step == self@.opened_at),
    {
        self.char_step == self.opened_at
    }

    /// The characters gathered for the next form.
    pub fn get_accrued(&self) -> (r: &str)
        ensures
            r@ == self@.accrued,
    {
        self.accrued.as_str()
    }

    /// Gathers the character at the place read, unless it was gathered.
    pub fn accrue_char_step(&mut self)
        ensures
            final(self)@ == st_accrue(old(self)@),
    {
        proof {
            use_type_invariant(&*self);
        }
        if !self.step_accrued {
            let c = self.get_char_step();
            let mut accrued = String::new();
            std::mem::swap(&mut accrued, &mut self.accrued);
            push_char(&mut accrued, c);
            self.accrued = accrued;
            self.step_accrued = true;
        }
    }

    /// Makes a form of the gathered characters, if there are any.
    pub fn commit_accrued(&mut self)
        ensures
            final(self)@ == st_commit(old(self)@),
    {
        proof {
            use_type_invariant(&*self);
        }
        if !self.accrued.as_str().is_empty() {
            let mut accrued = String::new();
            std::mem::swap(&mut accrued, &mut self.accrued);
            let mut results: Vec<String> = Vec::new();
            std::mem::swap(&mut results, &mut self.results);
            proof {
                lemma_texts_push(results@, accrued);
            }
            results.push(accrued);
            self.results = results;
        }
    }

    /// Moves to the next place, if there is one.
    pub fn advance(&mut self) -> (r: bool)
        ensures
            r == (old(self)@.char_step < old(self)@.origins.len() - 1),
            r ==> final(self)@ == (ParseState {
                char_step: old(self)@.char_step + 1,
                step_accrued: false,
                ..old(self)@
            }),
            !r ==> final(self)@ == old(self)@,
    {
        proof {
            use_type_invariant(&*self);
        }
        if self.char_step < self.char_size - 1 {
            self.char_step = self.char_step + 1;
            self.step_accrued = false;
            true
        } else {
            false
        }
    }

    fn into_results(self) -> (r: Vec<String>)
        ensures
            texts_of(r@) == self@.results,
    {
        self.results
    }
}

/// The first block, from `i` on, that opens at the place read, or -1.
pub open spec fn first_open(blocks: Seq<BlockKind>, st: ParseState, i: nat) -> int
    decreases blocks.len() - i,
{
    if i >= blocks.len() {
        -1
    } else if blocks[i as int].spec_opens(st) {
        i as int
    } else {
        first_open(blocks, st, i + 1)
    }
}

/// The first block that opens is one of the blocks, at or after `i`.
pub proof fn lemma_first_open_range(blocks: Seq<BlockKind>, st: ParseState, i: nat)
    ensures
        first_open(blocks, st, i) == -1 || (i <= first_open(blocks, st, i) < blocks.len()
            && blocks[first_open(blocks, st, i)].spec_opens(st)),
    decreases blocks.len() - i,
{
    if i < blocks.len() && !blocks[i as int].spec_opens(st) {
        lemma_first_open_range(blocks, st, i + 1);
    }
}

/// When no block is open, the first block that opens here opens: it may make
/// a form of what was gathered, gathers the character read and marks the place.
pub open spec fn turn_open(blocks: Seq<BlockKind>, st: ParseState, inside: int) -> (ParseState, int) {
    if inside < 0 {
        let k = first_open(blocks, st, 0);
        if k >= 0 {
            let s1 = if blocks[k].spec_opens_commit() {
                st_commit(st)
            } else {
                st
            };
            (ParseState { opened_at: s1.char_step, ..st_accrue(s1) }, k)
        } else {
            (st, inside)
        }
    } else {
        (st, inside)
    }
}

/// When a block is open and closes here, the character read is gathered, a
/// form may be made, and no block is open any more.
pub open spec fn turn_close(blocks: Seq<BlockKind>, st: ParseState, inside: int) -> (ParseState, int) {
    if 0 <= inside < blocks.len() && blocks[inside].spec_closes(st) {
        let s1 = st_accrue(st);
        let s2 = if blocks[inside].spec_closes_commit() {
            st_commit(s1)
        } else {
            s1
        };
        (ParseState { opened_at: -1, ..s2 }, -1)
    } else {
        (st, inside)
    }
}

/// What a parse does at one place: open, close, then gather the character.
pub open spec fn parse_turn(blocks: Seq<BlockKind>, st: ParseState, inside: int) -> (ParseState, int) {
    let (s1, i1) = turn_open(blocks, st, inside);
    let (s2, i2) = turn_close(blocks, s1, i1);
    (st_accrue(s2), i2)
}

/// The forms that a parse makes from a state on: a turn at each place up to
/// the last character, then the gathered characters make the last form.
pub open spec fn parse_run(blocks: Seq<BlockKind>, st: ParseState, inside: int) -> Seq<Seq<char>>
    decreases st.origins.len() - st.char_step,
{
    let (s1, i1) = parse_turn(blocks, st, inside);
    if 0 <= st.char_step < st.origins.len() - 1 {
        parse_run(
            blocks,
            ParseState {
                origins: st.origins,
                char_step: st.char_step + 1,
                step_accrued: false,
                ..s1
            },
            i1,
        )
    } else {
        st_commit(s1).results
    }
}

/// The forms that parsing a range of texts with the blocks makes.
pub open spec fn parse_texts(blocks: Seq<BlockBy>, range: Seq<Seq<char>>) -> Seq<Seq<char>> {
    parse_run(kinds_of(blocks), start_state(range.flatten()), -1)
}

/// Whether the forms made and the characters gathered so far are, joined,
/// the characters read so far.
pub open spec fn parse_keeps(st: ParseState) -> bool {
    st.results.flatten() + st.accrued == st.origins.take(
        st.char_step + if st.step_accrued {
            1int
        } else {
            0int
        },
    )
}

proof fn lemma_commit_keeps(st: ParseState)
    requires
        parse_keeps(st),
    ensures
        parse_keeps(st_commit(st)),
        st_commit(st).origins == st.origins,
        st_commit(st).char_step == st.char_step,
        st_commit(st).step_accrued == st.step_accrued,
{
    if st.accrued.len() > 0 {
        st.results.lemma_flatten_push(st.accrued);
        assert(st.results.push(st.accrued).flatten() + Seq::<char>::empty() =~= st.results.flatten()
            + st.accrued);
    }
}

proof fn lemma_accrue_keeps(st: ParseState)
    requires
        parse_keeps(st),
        0 <= st.char_step < st.origins.len(),
    ensures
        parse_keeps(st_accrue(st)),
        st_accrue(st).origins == st.origins,
        st_accrue(st).char_step == st.char_step,
        st_accrue(st).step_accrued,
{
    if !st.step_accrued {
        assert(st.origins.take(st.char_step + 1) =~= st.origins.take(st.char_step).push(
            st.origins[st.char_step],
        ));
        assert(st.results.flatten() + st.accrued.push(st.origins[st.char_step]) =~= (
        st.results.flatten() + st.accrued).push(st.origins[st.char_step]));
    }
}

proof fn lemma_turn_keeps(blocks: Seq<BlockKind>, st: ParseState, inside: int)
    requires
        parse_keeps(st),
        0 <= st.char_step < st.origins.len(),
    ensures
        parse_keeps(parse_turn(blocks, st, inside).0),
        parse_turn(blocks, st, inside).0.origins == st.origins,
        parse_turn(blocks, st, inside).0.char_step == st.char_step,
        parse_turn(blocks, st, inside).0.step_accrued,
{
    let (s1, i1) = turn_open(blocks, st, inside);
    if inside < 0 {
        let k = first_open(blocks, st, 0);
        if k >= 0 {
            lemma_first_open_range(blocks, st, 0);
            let c = if blocks[k].spec_opens_commit() {
                st_commit(st)
            } else {
                st
            };
            lemma_commit_keeps(st);
            lemma_accrue_keeps(c);
        }
    }
    let (s2, i2) = turn_close(blocks, s1, i1);
    if 0 <= i1 < blocks.len() && blocks[i1].spec_closes(s1) {
        lemma_accrue_keeps(s1);
        lemma_commit_keeps(st_accrue(s1));
    }
    lemma_accrue_keeps(s2);
}

proof fn lemma_run_keeps(blocks: Seq<BlockKind>, st: ParseState, inside: int)
    requires
        parse_keeps(st),
        0 <= st.char_step < st.origins.len(),
    ensures
        parse_run(blocks, st, inside).flatten() == st.origins,
    decreases st.origins.len() - st.char_step,
{
    let (s1, i1) = parse_turn(blocks, st, inside);
    lemma_turn_keeps(blocks, st, inside);
    if st.char_step < st.origins.len() - 1 {
        let next = ParseState {
            origins: st.origins,
            char_step: st.char_step + 1,
            step_accrued: false,
            ..s1
        };
        assert(parse_keeps(next));
        lemma_run_keeps(blocks, next, i1);
    } else {
        lemma_commit_keeps(s1);
        let done = st_commit(s1);
        assert(done.accrued.len() == 0);
        assert(done.results.flatten() + done.accrued =~= done.results.flatten());
        assert(st.origins.take(st.origins.len() as int) =~= st.origins);
    }
}

/// Parsing keeps the text: when the range holds at least one character, the
/// forms made, joined, are the characters of the range, in order.
pub proof fn law_parse_keeps_text(blocks: Seq<BlockBy>, range: Seq<Seq<char>>)
    requires
        range.flatten().len() > 0,
    ensures
        parse_texts(blocks, range).flatten() == range.flatten(),
{
    let st = start_state(range.flatten());
    assert(Seq::<Seq<char>>::empty().flatten() + Seq::<char>::empty() =~= st.origins.take(0));
    lemma_run_keeps(kinds_of(blocks), st, -1);
}

/// Parsing a range without characters makes exactly one form, which holds
/// the NUL character that the reader gives past the end.
pub proof fn law_parse_empty_text(blocks: Seq<BlockBy>, range: Seq<Seq<char>>)
    requires
        range.flatten().len() == 0,
    ensures
        parse_texts(blocks, range) == seq![seq!['\0']],
{
    let kinds = kinds_of(blocks);
    let st = start_state(range.flatten());
    let (s1, i1) = turn_open(kinds, st, -1);
    if first_open(kinds, st, 0) >= 0 {
        lemma_first_open_range(kinds, st, 0);
    }
    assert(s1.results.len() == 0);
    let (s2, i2) = turn_close(kinds, s1, i1);
    let s3 = st_accrue(s2);
    assert(s3.step_accrued);
    assert(st_commit(s3).results =~= seq![seq!['\0']]);
}

/// Whether no form in a list is empty.
pub open spec fn forms_nonempty(forms: Seq<Seq<char>>) -> bool {
    forall|i: int| 0 <= i < forms.len() ==> (#[trigger] forms[i]).len() > 0
}

proof fn lemma_commit_nonempty(st: ParseState)
    requires
        forms_nonempty(st.results),
    ensures
        forms_nonempty(st_commit(st).results),
{
    if st.accrued.len() > 0 {
        let rs = st.results.push(st.accrued);
        assert forall|i: int| 0 <= i < rs.len() implies (#[trigger] rs[i]).len() > 0 by {
            if i < st.results.len() {
                assert(rs[i] == st.results[i]);
            }
        }
    }
}

proof fn lemma_run_nonempty(blocks: Seq<BlockKind>, st: ParseState, inside: int)
    requires
        forms_nonempty(st.results),
    ensures
        forms_nonempty(parse_run(blocks, st, inside)),
    decreases st.origins.len() - st.char_step,
{
    let (s1, i1) = turn_open(blocks, st, inside);
    if inside < 0 {
        let k = first_open(blocks, st, 0);
        if k >= 0 {
            lemma_first_open_range(blocks, st, 0);
            lemma_commit_nonempty(st);
        }
    }
    assert(forms_nonempty(s1.results));
    let (s2, i2) = turn_close(blocks, s1, i1);
    if 0 <= i1 < blocks.len() && blocks[i1].spec_closes(s1) {
        lemma_commit_nonempty(st_accrue(s1));
    }
    assert(forms_nonempty(s2.results));
    let s3 = st_accrue(s2);
    assert(s3.results == s2.results);
    if 0 <= st.char_step < st.origins.len() - 1 {
        let next = ParseState {
            origins: st.origins,
            char_step: st.char_step + 1,
            step_accrued: false,
            ..s3
        };
        lemma_run_nonempty(blocks, next, i2);
    } else {
        lemma_commit_nonempty(s3);
    }
}

/// Law: a parse makes at least one form, and no form it makes is empty.
pub proof fn law_parse_forms_nonempty(blocks: Seq<BlockBy>, range: Seq<Seq<char>>)
    ensures
        parse_texts(blocks, range).len() >= 1,
        forms_nonempty(parse_texts(blocks, range)),
{
    let st = start_state(range.flatten());
    lemma_run_nonempty(kinds_of(blocks), st, -1);
    if range.flatten().len() > 0 {
        law_parse_keeps_text(blocks, range);
        if parse_texts(blocks, range).len() == 0 {
            assert(parse_texts(blocks, range) =~= Seq::<Seq<char>>::empty());
            assert(Seq::<Seq<char>>::empty().flatten() =~= Seq::<char>::empty());
        }
    } else {
        law_parse_empty_text(blocks, range);
    }
}

/// Whether every character of a text is white space (`ws`) or none is
/// (`!ws`), white space as `char::is_whitespace` has it.
pub open spec fn uniform_ws(p: Seq<char>, ws: bool) -> bool {
    forall|i: int| 0 <= i < p.len() ==> spec_is_whitespace(#[trigger] p[i]) == ws
}

/// Whether forms are runs of white space and runs of other characters, none
/// empty, the two kinds taking turns.
pub open spec fn ws_runs(rs: Seq<Seq<char>>) -> bool {
    &&& forall|i: int|
        0 <= i < rs.len() ==> (#[trigger] rs[i]).len() > 0 && uniform_ws(rs[i], spec_is_whitespace(rs[i][0]))
    &&& forall|i: int|
        0 < i < rs.len() ==> spec_is_whitespace(rs[i - 1][0]) != spec_is_whitespace(#[trigger] rs[i][0])
}

/// The blocks of a parse by white space alone.
pub open spec fn ws_blocks() -> Seq<BlockKind> {
    seq![BlockKind::WhiteSpace(BlockWhiteSpace {  })]
}

/// What a parse by white space alone keeps at the start of each place.
pub open spec fn ws_inv(st: ParseState, inside: int) -> bool {
    let o = st.origins;
    let k = st.char_step;
    &&& 0 <= k < o.len()
    &&& !st.step_accrued
    &&& (inside == -1 || inside == 0)
    &&& ws_runs(st.results)
    &&& st.accrued.len() > 0 ==> uniform_ws(st.accrued, inside == 0)
    &&& st.accrued.len() > 0 && st.results.len() > 0 ==> spec_is_whitespace(st.results.last()[0]) != (
    inside == 0)
    &&& st.accrued.len() == 0 ==> inside == -1 && (st.results.len() > 0 ==> spec_is_whitespace(
        st.results.last()[0],
    ) && !spec_is_whitespace(o[k]))
    &&& inside == 0 ==> st.accrued.len() > 0 && spec_is_whitespace(o[k])
}

/// What a parse by white space alone keeps after the turn at a place, with
/// `next` the character after it.
pub open spec fn ws_after(st: ParseState, inside: int, next: char) -> bool {
    &&& (inside == -1 || inside == 0)
    &&& ws_runs(st.results)
    &&& st.accrued.len() > 0 ==> uniform_ws(st.accrued, inside == 0)
    &&& st.accrued.len() > 0 && st.results.len() > 0 ==> spec_is_whitespace(st.results.last()[0]) != (
    inside == 0)
    &&& st.accrued.len() == 0 ==> inside == -1 && st.results.len() > 0 && spec_is_whitespace(
        st.results.last()[0],
    ) && !spec_is_whitespace(next)
    &&& inside == 0 ==> st.accrued.len() > 0 && spec_is_whitespace(next)
}

proof fn lemma_uniform_push(p: Seq<char>, c: char, ws: bool)
    requires
        p.len() > 0 ==> uniform_ws(p, ws),
        spec_is_whitespace(c) == ws,
    ensures
        uniform_ws(p.push(c), ws),
{
    assert forall|i: int| 0 <= i < p.push(c).len() implies spec_is_whitespace(#[trigger] p.push(c)[i])
        == ws by {
        if i < p.len() {
            assert(p.push(c)[i] == p[i]);
        }
    }
}

proof fn lemma_ws_runs_push(rs: Seq<Seq<char>>, p: Seq<char>, ws: bool)
    requires
        ws_runs(rs),
        p.len() > 0,
        uniform_ws(p, ws),
        rs.len() > 0 ==> spec_is_whitespace(rs.last()[0]) != ws,
    ensures
        ws_runs(rs.push(p)),
        spec_is_whitespace(rs.push(p).last()[0]) == ws,
{
    let x = rs.push(p);
    assert(spec_is_whitespace(p[0]) == ws);
    assert forall|i: int| 0 <= i < x.len() implies (#[trigger] x[i]).len() > 0 && uniform_ws(
        x[i],
        spec_is_whitespace(x[i][0]),
    ) by {
        if i < rs.len() {
            assert(x[i] == rs[i]);
        }
    }
    assert forall|i: int| 0 < i < x.len() implies spec_is_whitespace(x[i - 1][0]) != spec_is_whitespace(
        #[trigger] x[i][0],
    ) by {
        assert(x[i - 1] == rs[i - 1]);
        if i < rs.len() {
            assert(x[i] == rs[i]);
        } else {
            assert(rs.last() == rs[i - 1]);
        }
    }
}

/// Committing keeps the runs, when what is gathered is a run of the other
/// kind than the last form.
proof fn lemma_ws_commit(st: ParseState, ws: bool)
    requires
        ws_runs(st.results),
        st.accrued.len() > 0 ==> uniform_ws(st.accrued, ws),
        st.accrued.len() > 0 && st.results.len() > 0 ==> spec_is_whitespace(st.results.last()[0]) != ws,
    ensures
        ws_runs(st_commit(st).results),
        st.accrued.len() > 0 ==> spec_is_whitespace(st_commit(st).results.last()[0]) == ws,
        st.accrued.len() == 0 ==> st_commit(st).results == st.results,
        st_commit(st).accrued.len() == 0,
{
    if st.accrued.len() > 0 {
        lemma_ws_runs_push(st.results, st.accrued, ws);
    }
}

proof fn lemma_ws_turn(st: ParseState, inside: int)
    requires
        ws_inv(st, inside),
    ensures
        ws_after(
            parse_turn(ws_blocks(), st, inside).0,
            parse_turn(ws_blocks(), st, inside).1,
            char_at(st.origins, st.char_step + 1),
        ),
        parse_turn(ws_blocks(), st, inside).0.origins == st.origins,
        parse_turn(ws_blocks(), st, inside).0.char_step == st.char_step,
{
    let bs = ws_blocks();
    let k = st.char_step;
    let c = st.origins[k];
    let n = char_at(st.origins, k + 1);
    assert(char_delta(st, 0) == c);
    let (s1, i1) = turn_open(bs, st, inside);
    let (s2, i2) = turn_close(bs, s1, i1);
    let s3 = st_accrue(s2);
    if inside == -1 {
        if spec_is_whitespace(c) {
            assert(bs[0].spec_opens(st));
            assert(first_open(bs, st, 0) == 0);
            assert(bs[0].spec_opens_commit());
            lemma_ws_commit(st, false);
            let c1 = st_commit(st);
            assert(s1 == ParseState { opened_at: c1.char_step, ..st_accrue(c1) });
            assert(i1 == 0);
            assert(s1.accrued == seq![c]) by {
                assert(Seq::<char>::empty().push(c) =~= seq![c]);
            }
            lemma_uniform_push(Seq::<char>::empty(), c, true);
            assert(uniform_ws(s1.accrued, true)) by {
                assert(Seq::<char>::empty().push(c) =~= s1.accrued);
            }
            assert(char_delta(s1, 1) == n);
            if !spec_is_whitespace(n) {
                assert(bs[0].spec_closes(s1));
                let a1 = st_accrue(s1);
                assert(a1 == s1);
                lemma_ws_commit(a1, true);
                assert(s2.accrued.len() == 0);
            } else {
                assert(!bs[0].spec_closes(s1));
            }
        } else {
            assert(!bs[0].spec_opens(st));
            assert(first_open(bs, st, 1) == -1);
            assert(first_open(bs, st, 0) == -1);
            assert(s1 == st && i1 == -1);
            assert(s2 == s1);
            lemma_uniform_push(st.accrued, c, false);
        }
    } else {
        assert(s1 == st && i1 == 0);
        assert(char_delta(st, 1) == n);
        if !spec_is_whitespace(n) {
            assert(bs[0].spec_closes(st));
            let a1 = st_accrue(st);
            lemma_uniform_push(st.accrued, c, true);
            lemma_ws_commit(a1, true);
        } else {
            assert(!bs[0].spec_closes(st));
            lemma_uniform_push(st.accrued, c, true);
        }
    }
}

proof fn lemma_ws_run(st: ParseState, inside: int)
    requires
        ws_inv(st, inside),
    ensures
        ws_runs(parse_run(ws_blocks(), st, inside)),
    decreases st.origins.len() - st.char_step,
{
    let bs = ws_blocks();
    let (s1, i1) = parse_turn(bs, st, inside);
    lemma_ws_turn(st, inside);
    let n = char_at(st.origins, st.char_step + 1);
    if st.char_step < st.origins.len() - 1 {
        let next = ParseState {
            origins: st.origins,
            char_step: st.char_step + 1,
            step_accrued: false,
            ..s1
        };
        assert(next.origins[next.char_step] == n);
        lemma_ws_run(next, i1);
    } else {
        lemma_ws_commit(s1, i1 == 0);
    }
}

/// Law: parsing a text with the white space block alone cuts it into its
/// longest runs: each form is white space throughout (line breaks and tabs
/// included, as `char::is_whitespace` has it) or holds none, no form is
/// empty, the two kinds take turns, and the forms joined are the text.
pub proof fn law_parse_white_space_runs(range: Seq<Seq<char>>)
    requires
        range.flatten().len() > 0,
    ensures
        ws_runs(parse_texts(seq![BlockBy::Imply(BlockImply::WhiteSpace)], range)),
        parse_texts(seq![BlockBy::Imply(BlockImply::WhiteSpace)], range).flatten() == range.flatten(),
{
    let blocks = seq![BlockBy::Imply(BlockImply::WhiteSpace)];
    assert(kinds_of(blocks) =~= ws_blocks());
    let st = start_state(range.flatten());
    assert(ws_inv(st, -1));
    lemma_ws_run(st, -1);
    law_parse_keeps_text(blocks, range);
}

/// Whether a text holds no ASCII punctuation.
pub open spec fn no_punct(p: Seq<char>) -> bool {
    forall|i: int| 0 <= i < p.len() ==> !spec_is_ascii_punctuation(#[trigger] p[i])
}

/// Whether a form is one ASCII punctuation character.
pub open spec fn one_punct(p: Seq<char>) -> bool {
    p.len() == 1 && spec_is_ascii_punctuation(p[0])
}

/// Whether forms are single ASCII punctuation characters and runs without
/// punctuation, none empty, and no two runs without punctuation follow each
/// other.
pub open spec fn punct_forms(rs: Seq<Seq<char>>) -> bool {
    &&& forall|i: int| 0 <= i < rs.len() ==> (#[trigger] rs[i]).len() > 0 && (one_punct(rs[i]) || no_punct(rs[i]))
    &&& forall|i: int| 0 < i < rs.len() ==> no_punct(rs[i - 1]) ==> one_punct(#[trigger] rs[i])
}

/// The blocks of a parse by punctuation alone.
pub open spec fn punct_blocks() -> Seq<BlockKind> {
    seq![BlockKind::Punctuation(BlockPunctuation {  })]
}

/// What a parse by punctuation alone keeps between places.
pub open spec fn punct_inv(st: ParseState) -> bool {
    &&& punct_forms(st.results)
    &&& no_punct(st.accrued)
    &&& st.results.len() > 0 ==> one_punct(st.results.last())
}

proof fn lemma_punct_push(rs: Seq<Seq<char>>, p: Seq<char>)
    requires
        punct_forms(rs),
        p.len() > 0,
        one_punct(p) || no_punct(p),
        no_punct(p) && rs.len() > 0 ==> one_punct(rs.last()),
    ensures
        punct_forms(rs.push(p)),
{
    let x = rs.push(p);
    assert forall|i: int| 0 <= i < x.len() implies (#[trigger] x[i]).len() > 0 && (one_punct(x[i]) || no_punct(x[i])) by {
        if i < rs.len() {
            assert(x[i] == rs[i]);
        }
    }
    assert forall|i: int| 0 < i < x.len() && no_punct(x[i - 1]) implies one_punct(#[trigger] x[i]) by {
        assert(x[i - 1] == rs[i - 1]);
        if i < rs.len() {
            assert(x[i] == rs[i]);
        } else {
            assert(rs.last() == rs[i - 1]);
            if no_punct(p) {
                assert(one_punct(rs.last()));
                assert(spec_is_ascii_punctuation(rs.last()[0]));
                assert(!no_punct(rs[i - 1]));
            }
        }
    }
}

proof fn lemma_punct_run(st: ParseState, inside: int)
    requires
        punct_inv(st),
        inside == -1,
        0 <= st.char_step < st.origins.len(),
        !st.step_accrued,
    ensures
        punct_forms(parse_run(punct_blocks(), st, inside)),
    decreases st.origins.len() - st.char_step,
{
    let bs = punct_blocks();
    let k = st.char_step;
    let c = st.origins[k];
    assert(char_delta(st, 0) == c);
    let (s1, i1) = turn_open(bs, st, inside);
    let (s2, i2) = turn_close(bs, s1, i1);
    let s3 = st_accrue(s2);
    if spec_is_ascii_punctuation(c) {
        assert(bs[0].spec_opens(st));
        assert(first_open(bs, st, 0) == 0);
        let c1 = st_commit(st);
        if st.accrued.len() > 0 {
            lemma_punct_push(st.results, st.accrued);
        }
        assert(punct_forms(c1.results));
        assert(s1.accrued == seq![c]) by {
            assert(Seq::<char>::empty().push(c) =~= seq![c]);
        }
        assert(i1 == 0);
        assert(bs[0].spec_closes(s1));
        assert(st_accrue(s1) == s1);
        lemma_punct_push(c1.results, seq![c]);
        assert(s2.results == c1.results.push(seq![c]));
        assert(one_punct(seq![c]));
        assert(s2.accrued.len() == 0);
        assert(i2 == -1);
        assert(s3 == s2);
        assert(no_punct(s3.accrued));
    } else {
        assert(!bs[0].spec_opens(st));
        assert(first_open(bs, st, 1) == -1);
        assert(first_open(bs, st, 0) == -1);
        assert(s1 == st && i1 == -1);
        assert(s2 == s1);
        assert(s3.accrued == st.accrued.push(c));
        assert(no_punct(s3.accrued)) by {
            assert forall|i: int| 0 <= i < s3.accrued.len() implies !spec_is_ascii_punctuation(#[trigger] s3.accrued[i]) by {
                if i < st.accrued.len() {
                    assert(s3.accrued[i] == st.accrued[i]);
                }
            }
        }
    }
    assert(punct_inv(s3));
    if k < st.origins.len() - 1 {
        let next = ParseState { origins: st.origins, char_step: k + 1, step_accrued: false, ..s3 };
        lemma_punct_run(next, i2);
    } else {
        if s3.accrued.len() > 0 {
            lemma_punct_push(s3.results, s3.accrued);
        }
    }
}

/// Law: parsing a text with the punctuation block alone makes each ASCII
/// punctuation character a form of its own, and each run of other
/// characters between them one form: no form is empty, and no two runs
/// without punctuation follow each other.
pub proof fn law_parse_punctuation_forms(range: Seq<Seq<char>>)
    requires
        range.flatten().len() > 0,
    ensures
        punct_forms(parse_texts(seq![BlockBy::Imply(BlockImply::Punctuation)], range)),
        parse_texts(seq![BlockBy::Imply(BlockImply::Punctuation)], range).flatten() == range.flatten(),
{
    let blocks = seq![BlockBy::Imply(BlockImply::Punctuation)];
    assert(kinds_of(blocks) =~= punct_blocks());
    let st = start_state(range.flatten());
    assert(punct_inv(st));
    lemma_punct_run(st, -1);
    law_parse_keeps_text(blocks, range);
}

/// The first block that opens at the place read, or -1.
fn first_opening(blocks: &Vec<BlockKind>, helper: &ParseHelper) -> (r: i64)
    requires
        blocks@.len() <= i64::MAX,
        forall|i: int| 0 <= i < blocks@.len() ==> (#[trigger] blocks@[i]).spec_ready(),
    ensures
        r == first_open(blocks@, helper@, 0),
{
    let mut index: usize = 0;
    while index < blocks.len()
        invariant
            index <= blocks@.len() <= i64::MAX,
            forall|i: int| 0 <= i < blocks@.len() ==> (#[trigger] blocks@[i]).spec_ready(),
            first_open(blocks@, helper@, 0) == first_open(blocks@, helper@, index as nat),
        decreases blocks@.len() - index,
    {
        if blocks[index].opens(helper) {
            return index as i64;
        }
        index = index + 1;
    }
    -1
}

/// Parses all the forms with the blocks (see `rig_parse_on`).
pub fn rig_parse_all(forms: &mut Vec<String>, blocks: Vec<BlockBy>) -> (r: Result<
    usize,
    MessageErr,
>)
    requires
        texts_of(old(forms)@).flatten().len() <= i64::MAX,
        blocks@.len() <= i64::MAX,
    ensures
        r is Ok <==> forall|i: int| 0 <= i < blocks@.len() ==> block_valid(#[trigger] blocks@[i]),
        r is Err ==> final(forms)@.len() == 0,
        r matches Ok(n) ==> texts_of(final(forms)@) == parse_texts(blocks@, texts_of(old(forms)@))
            && n == final(forms)@.len() && n >= 1 && forms_nonempty(texts_of(final(forms)@)),
{
    let till = kit_len(forms);
    assert(texts_of(forms@).subrange(0, till as int) == texts_of(forms@));
    let r = rig_parse_on(forms, 0, till, blocks);
    proof {
        let old_texts = texts_of(old(forms)@);
        assert(old_texts.subrange(0, till as int) == old_texts);
        lemma_texts_subrange(old(forms)@, 0, till as int);
        assert(old(forms)@.take(0) + old(forms)@.skip(till as int) =~= Seq::<String>::empty());
        if r is Ok {
            assert(texts_of(old(forms)@).take(0) =~= Seq::<Seq<char>>::empty());
            assert(texts_of(old(forms)@).skip(till as int) =~= Seq::<Seq<char>>::empty());
        }
    }
    r
}

/// Parses the forms `from..till` with the blocks: their characters are read
/// one by one and the forms that the blocks make take their place; returns how
/// many forms were made. Fails, with the range already taken out, when a regex
/// block does not compile.
pub fn rig_parse_on(forms: &mut Vec<String>, from: usize, till: usize, blocks: Vec<BlockBy>) -> (r:
    Result<usize, MessageErr>)
    requires
        from <= till <= old(forms)@.len(),
        texts_of(old(forms)@).subrange(from as int, till as int).flatten().len() <= i64::MAX,
        blocks@.len() <= i64::MAX,
    ensures
        r is Ok <==> forall|i: int| 0 <= i < blocks@.len() ==> block_valid(#[trigger] blocks@[i]),
        r is Err ==> final(forms)@ == old(forms)@.take(from as int) + old(forms)@.skip(till as int),
        r matches Ok(n) ==> {
            let made = parse_texts(blocks@, texts_of(old(forms)@).subrange(from as int, till as int));
            &&& texts_of(final(forms)@) == texts_of(old(forms)@).take(from as int) + made + texts_of(
                old(forms)@,
            ).skip(till as int)
            &&& n == made.len()
            &&& n >= 1
            &&& forms_nonempty(made)
            &&& (texts_of(old(forms)@).subrange(from as int, till as int).flatten().len() > 0
                ==> made.flatten() == texts_of(old(forms)@).subrange(from as int, till as int).flatten())
        },
{
    proof {
        let range_texts = texts_of(old(forms)@).subrange(from as int, till as int);
        law_parse_forms_nonempty(blocks@, range_texts);
        if range_texts.flatten().len() > 0 {
            law_parse_keeps_text(blocks@, range_texts);
        }
    }
    let ghost start = forms@;
    let range = kit_del_range(forms, from, till);
    proof {
        lemma_texts_subrange(start, from as int, till as int);
    }
    let ghost kinds = kinds_of(blocks@);
    let parsers = get_parsers(blocks)?;
    let mut helper = ParseHelper::new(range);
    let ghost total = parse_run(kinds, helper@, -1);
    let mut inside: i64 = -1;
    loop
        invariant_except_break
            parse_run(kinds, helper@, inside as int) == total,
        invariant
            parsers@ == kinds,
            parsers@.len() <= i64::MAX,
            forall|i: int| 0 <= i < parsers@.len() ==> (#[trigger] parsers@[i]).spec_ready(),
            -1 <= inside < parsers@.len(),
            state_wf(helper@),
        ensures
            st_commit(helper@).results == total,
        decreases helper@.origins.len() - helper@.char_step,
    {
        let ghost s0 = helper@;
        let ghost in0 = inside as int;
        if inside < 0 {
            let k = first_opening(&parsers, &helper);
            proof {
                lemma_first_open_range(kinds, s0, 0);
            }
            if k >= 0 {
                let block = &parsers[k as usize];
                if block.opens_commit() {
                    helper.commit_accrued();
                }
                helper.accrue_char_step();
                helper.set_opened();
                inside = k;
            }
        }
        assert((helper@, inside as int) == turn_open(kinds, s0, in0));
        let ghost s1 = helper@;
        let ghost in1 = inside as int;
        if inside >= 0 {
            let block = &parsers[inside as usize];
            let closing = block.closes(&helper);
            assert(closing == kinds[in1].spec_closes(s1));
            if closing {
                helper.accrue_char_step();
                let ghost s2 = helper@;
                assert(s2 == st_accrue(s1));
                if block.closes_commit() {
                    helper.commit_accrued();
                }
                helper.set_closed();
                inside = -1;
            }
        }
        assert((helper@, inside as int) == turn_close(kinds, s1, in1));
        helper.accrue_char_step();
        assert((helper@, inside as int) == parse_turn(kinds, s0, in0));
        let moved = helper.advance();
        helper.well_formed();
        if !moved {
            break;
        }
    }
    helper.commit_accrued();
    let results = helper.into_results();
    let made = results.len();
    let ghost mid = forms@;
    kit_add_range(forms, from, results);
    proof {
        assert(mid =~= start.take(from as int) + start.skip(till as int));
        assert(mid.take(from as int) =~= start.take(from as int));
        assert(mid.skip(from as int) =~= start.skip(till as int));
        lemma_texts_add(start.take(from as int) + results@, start.skip(till as int));
        lemma_texts_add(start.take(from as int), results@);
    }
    Ok(made)
}

} // verus!
