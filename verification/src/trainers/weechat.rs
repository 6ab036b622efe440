//! A trainer that learns from a Weechat log: it drops the lines that Weechat
//! wrote itself, strips the time and the nickname from the others, and keeps
//! what one author said.

use vstd::prelude::*;
use crate::chain::{ChainError, LearningParameters, MarkovChainGenerator, Trainer};
use crate::graph::{line_wordings, pairs, taught, total_pairs};
use crate::text::{pieces, split, starts_with, texts, trim, trimmed};

verus! {

/// The shape of a log line: an optional date, a time of day, white space,
/// and then, as the second group, the rest of the line.
pub const LINE_PATTERN: &'static str =
    "(\\d{4}-\\d{2}-\\d{2}\\s+)?\\d{2}:\\d{2}:\\d{2}\\s+(.*)";

/// What the group numbered `group` holds after the regular expression
/// `pattern` was searched for in `text`, as the crate `regex` finds it:
/// nothing where `pattern` is no regular expression, where `text` holds no
/// match, or where the group took no part in the match.
pub uninterp spec fn regex_group(pattern: Seq<char>, text: Seq<char>, group: usize) -> Option<
    Seq<char>,
>;

/// `regex::Regex::new`, then `Regex::captures` and `Captures::get`: the text
/// of one group of the first match of `pattern` in `text`. What the outside
/// crate finds is named, not defined.
#[verifier::external_body]
fn capture_group(pattern: &str, text: &str, group: usize) -> (r: Option<String>)
    ensures
        r is Some == regex_group(pattern@, text@, group) is Some,
        r is Some ==> r.unwrap()@ == regex_group(pattern@, text@, group).unwrap(),
{
    match regex::Regex::new(pattern) {
        Ok(re) => re.captures(text).and_then(|found| found.get(group)).map(
            |part| part.as_str().to_owned(),
        ),
        Err(_) => None,
    }
}

/// What a log line says behind its time, where it has the shape of a log
/// line.
pub open spec fn payload(line: Seq<char>) -> Option<Seq<char>> {
    regex_group(LINE_PATTERN@, line, 2)
}

/// Whether what a line says is a notice of Weechat's own: of someone who
/// came or left, or of another event.
pub open spec fn is_noise(said: Seq<char>) -> bool {
    ||| seq!['-', '-'].is_prefix_of(said)
    ||| seq!['<', '-', '-'].is_prefix_of(said)
    ||| seq!['-', '-', '>'].is_prefix_of(said)
}

/// Whether a line stays when the noise goes: it has the shape of a log line
/// and is no notice.
pub open spec fn keeps(line: Seq<char>) -> bool {
    payload(line) is Some && !is_noise(payload(line).unwrap())
}

/// The lines that stay when the noise goes, in their order.
pub open spec fn without_noise(lines: Seq<Seq<char>>) -> Seq<Seq<char>>
    decreases lines.len(),
{
    if lines.len() == 0 {
        lines
    } else if keeps(lines.last()) {
        without_noise(lines.drop_last()).push(lines.last())
    } else {
        without_noise(lines.drop_last())
    }
}

/// What is left of what a line says for `author`: what the author said,
/// without an `@` before the nickname, the nickname, and white space at
/// either end; nothing, where another said it.
pub open spec fn said_by(said: Seq<char>, author: Seq<char>) -> Seq<char> {
    let input = if said.len() > 0 && said[0] == '@' {
        said.drop_first()
    } else {
        said
    };
    if author.is_prefix_of(input) {
        trimmed(input.skip(author.len() as int))
    } else {
        Seq::<char>::empty()
    }
}

/// What is left of a log line for `author`: what the author said behind the
/// time. A line without the shape of a log line is left as it is.
pub open spec fn cleaned_line(line: Seq<char>, author: Seq<char>) -> Seq<char> {
    match payload(line) {
        None => line,
        Some(said) => said_by(said, author),
    }
}

/// What is left of the lines for `author`, without the lines of which
/// nothing is left.
pub open spec fn cleaned(lines: Seq<Seq<char>>, author: Seq<char>) -> Seq<Seq<char>>
    decreases lines.len(),
{
    if lines.len() == 0 {
        lines
    } else if cleaned_line(lines.last(), author).len() > 0 {
        cleaned(lines.drop_last(), author).push(cleaned_line(lines.last(), author))
    } else {
        cleaned(lines.drop_last(), author)
    }
}

/// The lines of a text: its pieces between line feeds, without the piece
/// behind the last line feed where that piece is empty.
pub open spec fn lines_of(content: Seq<char>) -> Seq<Seq<char>> {
    let cut = pieces(content, '\n');
    if cut.len() > 0 && cut.last().len() == 0 {
        cut.drop_last()
    } else {
        cut
    }
}

/// Whether what a line says is a notice of Weechat's own.
pub fn noise(said: &str) -> (r: bool)
    ensures
        r == is_noise(said@),
{
    proof {
        reveal_strlit("--");
        reveal_strlit("<--");
        reveal_strlit("-->");
        assert("--"@ =~= seq!['-', '-']);
        assert("<--"@ =~= seq!['<', '-', '-']);
        assert("-->"@ =~= seq!['-', '-', '>']);
    }
    starts_with(said, "--") || starts_with(said, "<--") || starts_with(said, "-->")
}

/// What is left for `author` of what a line says behind its time.
pub fn strip_author(said: &str, author: &str) -> (r: String)
    ensures
        r@ == said_by(said@, author@),
{
    let n: usize = said.unicode_len();
    let input: &str = if n > 0 && said.get_char(0) == '@' {
        said.substring_char(1, n)
    } else {
        said
    };
    if starts_with(input, author) {
        let from: usize = author.unicode_len();
        let to: usize = input.unicode_len();
        trim(input.substring_char(from, to))
    } else {
        String::new()
    }
}

/// What is left of one log line for `author`.
pub fn clean_line(line: &str, author: &str) -> (r: String)
    ensures
        r@ == cleaned_line(line@, author@),
{
    match capture_group(LINE_PATTERN, line, 2) {
        None => line.to_owned(),
        Some(said) => strip_author(said.as_str(), author),
    }
}

/// The content of a Weechat log, and the author whose lines are wanted.
pub struct WeechatLogTrainer {
    lines: Vec<String>,
    author: String,
}

impl WeechatLogTrainer {
    /// The lines held, in their order.
    pub closed spec fn lines(&self) -> Seq<Seq<char>> {
        texts(self.lines@)
    }

    /// The author whose lines are wanted.
    pub closed spec fn author(&self) -> Seq<char> {
        self.author@
    }

    /// A trainer on the lines of `content`, for what `author` said.
    pub fn new(author: &str, content: &str) -> (r: WeechatLogTrainer)
        ensures
            r.lines() == lines_of(content@),
            r.author() == author@,
    {
        let mut lines = split(content, '\n');
        let ghost cut = texts(lines@);
        let n: usize = lines.len();
        if n > 0 && lines[n - 1].as_str().is_empty() {
            lines.pop();
            assert(texts(lines@) =~= cut.drop_last());
        }
        WeechatLogTrainer { lines, author: author.to_owned() }
    }

    /// A copy of the lines held, in their order.
    pub fn kept_lines(&self) -> (r: Vec<String>)
        ensures
            texts(r@) == self.lines(),
    {
        let mut out: Vec<String> = Vec::new();
        let mut i: usize = 0;
        while i < self.lines.len()
            invariant
                i <= self.lines@.len(),
                texts(out@) == texts(self.lines@).take(i as int),
            decreases self.lines@.len() - i,
        {
            let ghost before = texts(out@);
            out.push(self.lines[i].clone());
            assert(texts(out@) =~= before.push(self.lines@[i as int]@));
            assert(texts(self.lines@).take(i + 1) =~= before.push(self.lines@[i as int]@));
            i += 1;
        }
        assert(texts(self.lines@).take(i as int) =~= texts(self.lines@));
        out
    }

    /// Filter the log by removing all the noise linked to Weechat: the lines
    /// without the shape of a log line, and Weechat's own notices.
    pub fn filter_noise(&mut self)
        ensures
            final(self).lines() == without_noise(old(self).lines()),
            final(self).author() == old(self).author(),
    {
        let ghost all = texts(self.lines@);
        let mut kept: Vec<String> = Vec::new();
        let mut i: usize = 0;
        while i < self.lines.len()
            invariant
                i <= self.lines@.len(),
                all == texts(self.lines@),
                texts(kept@) == without_noise(all.take(i as int)),
            decreases self.lines@.len() - i,
        {
            let keep = match capture_group(LINE_PATTERN, self.lines[i].as_str(), 2) {
                Some(said) => !noise(said.as_str()),
                None => false,
            };
            let ghost before = texts(kept@);
            proof {
                assert(all.take(i + 1).drop_last() =~= all.take(i as int));
                assert(all.take(i + 1).last() == self.lines@[i as int]@);
            }
            if keep {
                kept.push(self.lines[i].clone());
                assert(texts(kept@) =~= before.push(self.lines@[i as int]@));
            }
            i += 1;
        }
        assert(all.take(i as int) =~= all);
        self.lines = kept;
    }

    /// Clean up lines to remove dates and nicknames, and drop the lines of
    /// which nothing is left.
    pub fn cleanup(&mut self)
        ensures
            final(self).lines() == cleaned(old(self).lines(), old(self).author()),
            final(self).author() == old(self).author(),
    {
        let ghost all = texts(self.lines@);
        let mut kept: Vec<String> = Vec::new();
        let mut i: usize = 0;
        while i < self.lines.len()
            invariant
                i <= self.lines@.len(),
                all == texts(self.lines@),
                texts(kept@) == cleaned(all.take(i as int), self.author@),
            decreases self.lines@.len() - i,
        {
            let content = clean_line(self.lines[i].as_str(), self.author.as_str());
            let ghost before = texts(kept@);
            proof {
                assert(all.take(i + 1).drop_last() =~= all.take(i as int));
                assert(all.take(i + 1).last() == self.lines@[i as int]@);
            }
            if !content.as_str().is_empty() {
                let ghost said = content@;
                kept.push(content);
                assert(texts(kept@) =~= before.push(said));
            }
            i += 1;
        }
        assert(all.take(i as int) =~= all);
        self.lines = kept;
    }
}

impl Trainer for WeechatLogTrainer {
    /// Drops the noise, cleans the lines up, and trains the generator on
    /// each line that is left, in their order, as far as the count of
    /// transitions can take them.
    fn source_train(
        &mut self,
        markov_chain_generator: &mut MarkovChainGenerator,
        learn_params: LearningParameters,
    ) -> (r: Result<(), ChainError>)
        ensures
            r is Ok,
            final(self).author() == old(self).author(),
            final(self).lines() == cleaned(without_noise(old(self).lines()), old(self).author()),
            exists|done: int|
                {
                    &&& 0 <= done <= final(self).lines().len()
                    &&& final(markov_chain_generator)@ == #[trigger] taught(
                        old(markov_chain_generator)@,
                        final(self).lines().take(done),
                        learn_params.size(),
                    )
                    &&& final(markov_chain_generator).transitions() == old(markov_chain_generator).transitions() + total_pairs(
                        final(self).lines().take(done),
                        learn_params.size(),
                    )
                    &&& old(markov_chain_generator).transitions() + total_pairs(
                        final(self).lines(),
                        learn_params.size(),
                    ) <= usize::MAX ==> done == final(self).lines().len()
                    &&& done < final(self).lines().len() ==> final(markov_chain_generator).transitions() + pairs(
                        line_wordings(final(self).lines()[done], learn_params.size()).len(),
                    ) > usize::MAX
                },
    {
        self.filter_noise();
        self.cleanup();
        let done = markov_chain_generator.train_all(&learn_params, &self.lines);
        proof {
            let g = taught(
                old(markov_chain_generator)@,
                self.lines().take(done as int),
                learn_params.size(),
            );
            assert(markov_chain_generator@ == g);
        }
        Ok(())
    }
}

} // verus!
