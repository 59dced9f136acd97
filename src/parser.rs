//! Test files: the text that lists the jobs of a run.
//!
//! In a check file the first line is a separator; the lines after it
//! alternate between an input block and an expected-output block, each
//! closed by a separator line. A reference-program file starts with its
//! kind: `simple` (a separator, then input blocks each closed by it) or
//! `glob` (the same, with bracket expressions expanded in each block). A
//! random file starts with the number of tests wanted, then a separator and
//! input templates.
use crate::bracket::{
    always_resolves, copy_chars, digits_value, expand_all, expand_into, expand_list, has_bracket,
    is_digit, lemma_digits_end, lemma_expand_all_resolved, resolve_random, scan_digits, views,
};
use crate::job::{joined, Job};
use crate::pal::PalType;
use crate::text::{chars_of, lines, lines_of, same_chars, split_lines, string_of, strip_cr, utf8_bytes};
use vstd::prelude::*;
use vstd::string::*;
use vstd::utf8::*;

verus! {

/// Why a test file was rejected.
#[derive(Debug)]
pub enum ParseError {
    UnexpectedEOF(String),
    FormatError(String),
    UnkownInputType(String),
}

impl ParseError {
    /// The error in words.
    pub fn message(&self) -> (r: String)
        ensures
            r@ == match self {
                ParseError::UnexpectedEOF(e) => "Unexpected EOF: "@ + e@,
                ParseError::FormatError(e) => "Format error: "@ + e@,
                ParseError::UnkownInputType(e) => "Unkown config type: "@ + e@,
            },
    {
        match self {
            ParseError::UnexpectedEOF(e) => joined("Unexpected EOF: ", e.as_str()),
            ParseError::FormatError(e) => joined("Format error: ", e.as_str()),
            ParseError::UnkownInputType(e) => joined("Unkown config type: ", e.as_str()),
        }
    }
}

/// A line followed by its line break.
pub open spec fn with_newline(line: Seq<char>) -> Seq<char> {
    line + seq!['\n']
}

/// The state of a check file after some lines: whether an output block is
/// being read, the input and output read so far, and the finished pairs.
pub open spec fn check_state(ls: Seq<Seq<char>>, sep: Seq<char>) -> (
    bool,
    Seq<char>,
    Seq<char>,
    Seq<(Seq<char>, Seq<char>)>,
)
    decreases ls.len(),
{
    if ls.len() == 0 {
        (false, Seq::empty(), Seq::empty(), Seq::empty())
    } else {
        let (out, i, o, ps) = check_state(ls.drop_last(), sep);
        let line = ls.last();
        if line != sep {
            if !out {
                (false, i + with_newline(line), o, ps)
            } else {
                (true, i, o + with_newline(line), ps)
            }
        } else if !out {
            (true, i, o, ps)
        } else {
            (false, Seq::empty(), Seq::empty(), ps.push((i, o)))
        }
    }
}

/// The input blocks of some lines: the block being read, and those that
/// a separator closed.
pub open spec fn block_state(ls: Seq<Seq<char>>, sep: Seq<char>) -> (Seq<char>, Seq<Seq<char>>)
    decreases ls.len(),
{
    if ls.len() == 0 {
        (Seq::empty(), Seq::empty())
    } else {
        let (cur, bs) = block_state(ls.drop_last(), sep);
        let line = ls.last();
        if line != sep {
            (cur + with_newline(line), bs)
        } else {
            (Seq::empty(), bs.push(cur))
        }
    }
}

/// The closed input blocks of some lines; an unclosed last block is left
/// out.
pub open spec fn blocks_of(ls: Seq<Seq<char>>, sep: Seq<char>) -> Seq<Seq<char>> {
    block_state(ls, sep).1
}

/// `j` is the job with this id, input and expected output, and no actual
/// output yet.
pub open spec fn job_is(j: Job, id: int, input: Seq<char>, expected: Seq<char>) -> bool {
    &&& j.id == id
    &&& j.input@ == encode_utf8(input)
    &&& j.expected_output@ == encode_utf8(expected)
    &&& j.actual_output@.len() == 0
}

/// The jobs numbered from 0 for each (input, expected output) pair.
pub open spec fn jobs_for_pairs(js: Seq<Job>, ps: Seq<(Seq<char>, Seq<char>)>) -> bool {
    &&& js.len() == ps.len()
    &&& forall|k: int| 0 <= k < js.len() ==> job_is(#[trigger] js[k], k, ps[k].0, ps[k].1)
}

/// The jobs numbered from 0 for each input, with no expected output.
pub open spec fn jobs_for_inputs(js: Seq<Job>, ins: Seq<Seq<char>>) -> bool {
    &&& js.len() == ins.len()
    &&& forall|k: int| 0 <= k < js.len() ==> job_is(#[trigger] js[k], k, ins[k], Seq::empty())
}

/// The pairs of a check file, or `None` when it has no separator line.
pub open spec fn check_pairs(text: Seq<char>) -> Option<Seq<(Seq<char>, Seq<char>)>> {
    let ls = lines_of(text);
    if ls.len() == 0 {
        None
    } else {
        Some(check_state(ls.drop_first(), ls[0]).3)
    }
}

/// The input blocks after the kind line and the separator line.
pub open spec fn pal_blocks(ls: Seq<Seq<char>>) -> Seq<Seq<char>> {
    blocks_of(ls.skip(2), ls[1])
}

/// The count that `l` spells: an optional `+` and decimal digits, within
/// the range of `usize`.
pub open spec fn parse_count(l: Seq<char>) -> Option<nat> {
    let d = if l.len() > 0 && l[0] == '+' {
        l.drop_first()
    } else {
        l
    };
    if d.len() > 0 && all_digits(d) && digits_value(d) <= usize::MAX {
        Some(digits_value(d))
    } else {
        None
    }
}

pub open spec fn all_digits(d: Seq<char>) -> bool {
    forall|k: int| 0 <= k < d.len() ==> is_digit(#[trigger] d[k])
}

/// Each template repeated `n` times, in order.
pub open spec fn repeat_each(ts: Seq<Seq<char>>, n: nat) -> Seq<Seq<char>>
    decreases ts.len(),
{
    if ts.len() == 0 {
        Seq::empty()
    } else {
        repeat_each(ts.drop_last(), n) + Seq::new(n, |k: int| ts.last())
    }
}

/// The jobs numbered from 0 whose inputs each are one full expansion of
/// the template at the same place, with no expected output.
pub open spec fn jobs_from_templates(js: Seq<Job>, ts: Seq<Seq<char>>) -> bool {
    &&& js.len() == ts.len()
    &&& forall|k: int| 0 <= k < js.len() ==> job_from_template(#[trigger] js[k], k, ts[k])
}

/// `j` is the job with this id whose input is one full expansion of `t`,
/// with no expected output.
pub open spec fn job_from_template(j: Job, id: int, t: Seq<char>) -> bool {
    exists|u: Seq<char>| #[trigger] expand_all(t).contains(u) && job_is(j, id, u, Seq::empty())
}

fn append_line(cur: &mut Vec<char>, line: &Vec<char>)
    ensures
        final(cur)@ == old(cur)@ + with_newline(line@),
{
    let mut k: usize = 0;
    while k < line.len()
        invariant
            k <= line.len(),
            cur@ == old(cur)@ + line@.take(k as int),
        decreases line.len() - k,
    {
        cur.push(line[k]);
        assert(line@.take(k + 1) =~= line@.take(k as int).push(line@[k as int]));
        k = k + 1;
    }
    cur.push('\n');
    assert(line@.take(line.len() as int) =~= line@);
    assert(final(cur)@ =~= old(cur)@ + with_newline(line@));
}

fn new_job(id: usize, input: &Vec<char>, expected: &Vec<char>) -> (j: Job)
    ensures
        job_is(j, id as int, input@, expected@),
{
    Job { id, input: utf8_bytes(input), expected_output: utf8_bytes(expected), actual_output: Vec::new() }
}

fn error_text(s: &str) -> (r: String)
    ensures
        r@ == s@,
{
    String::from_str(s)
}

/// What reading a check file gives.
pub open spec fn check_outcome(text: Seq<char>, r: Result<Vec<Job>, ParseError>) -> bool {
    match check_pairs(text) {
        None => r matches Err(ParseError::UnexpectedEOF(_)),
        Some(ps) => r matches Ok(js) && jobs_for_pairs(js@, ps),
    }
}

/// What reading a reference-program file gives.
pub open spec fn pal_outcome(text: Seq<char>, r: Result<Vec<Job>, ParseError>) -> bool {
    let ls = lines_of(text);
    if ls.len() == 0 {
        r matches Err(ParseError::UnexpectedEOF(_))
    } else if ls[0] == "simple"@ || ls[0] == "glob"@ {
        if ls.len() < 2 {
            r matches Err(ParseError::UnexpectedEOF(_))
        } else if ls[0] == "simple"@ {
            r matches Ok(js) && jobs_for_inputs(js@, pal_blocks(ls))
        } else {
            r matches Ok(js) && jobs_for_inputs(js@, expand_list(pal_blocks(ls)))
        }
    } else {
        r matches Err(ParseError::UnkownInputType(k)) && k@ == ls[0]
    }
}

/// What reading a random file gives. Each template yields the count
/// divided by the number of templates jobs, the rest being dropped; a
/// failure after the header comes only from a template in which some
/// choice meets an empty range.
pub open spec fn random_outcome(text: Seq<char>, r: Result<Vec<Job>, ParseError>) -> bool {
    let ls = lines_of(text);
    if ls.len() == 0 {
        r matches Err(ParseError::UnexpectedEOF(_))
    } else if parse_count(ls[0]) is None {
        r matches Err(ParseError::FormatError(_))
    } else if ls.len() < 2 {
        r matches Err(ParseError::UnexpectedEOF(_))
    } else if pal_blocks(ls).len() == 0 {
        r matches Err(ParseError::FormatError(_))
    } else {
        let per = parse_count(ls[0])->0 / pal_blocks(ls).len();
        &&& r matches Ok(js) ==> jobs_from_templates(js@, repeat_each(pal_blocks(ls), per))
        &&& r is Err ==> (r matches Err(ParseError::FormatError(_)))
        &&& r is Err ==> exists|k: int|
            0 <= k < pal_blocks(ls).len() && !always_resolves(#[trigger] pal_blocks(ls)[k])
    }
}

/// Reads a check file: one job for each input block and the expected-output
/// block after it. Fails only when the file has no line at all.
pub fn parse_check(input: &str) -> (r: Result<Vec<Job>, ParseError>)
    ensures
        check_outcome(input@, r),
{
    let text = chars_of(input);
    let ls = lines(&text);
    if ls.len() == 0 {
        return Err(ParseError::UnexpectedEOF(error_text("Input ends when reading separator.")));
    }
    let ghost lv = views(ls@);
    let sep = &ls[0];
    let mut is_output = false;
    let mut this_input: Vec<char> = Vec::new();
    let mut this_output: Vec<char> = Vec::new();
    let mut result: Vec<Job> = Vec::new();
    let mut n: usize = 1;
    assert(lv.drop_first().take(0) =~= Seq::<Seq<char>>::empty());
    while n < ls.len()
        invariant
            1 <= n <= ls.len(),
            lv == views(ls@),
            lv.len() == ls.len(),
            sep@ == lv[0],
            check_state(lv.drop_first().take(n - 1), lv[0]) == (
                is_output,
                this_input@,
                this_output@,
                check_state(lv.drop_first().take(n - 1), lv[0]).3,
            ),
            jobs_for_pairs(result@, check_state(lv.drop_first().take(n - 1), lv[0]).3),
        decreases ls.len() - n,
    {
        let line = &ls[n];
        let ghost prev = lv.drop_first().take(n - 1);
        let ghost ps = check_state(prev, lv[0]).3;
        assert(lv.drop_first().take(n as int).drop_last() =~= prev);
        assert(lv.drop_first().take(n as int).last() == line@);
        if !same_chars(line, sep) {
            if !is_output {
                append_line(&mut this_input, line);
            } else {
                append_line(&mut this_output, line);
            }
        } else if !is_output {
            is_output = true;
        } else {
            is_output = false;
            let job = new_job(result.len(), &this_input, &this_output);
            result.push(job);
            this_input = Vec::new();
            this_output = Vec::new();
            assert(jobs_for_pairs(result@, ps.push((check_state(prev, lv[0]).1, check_state(prev, lv[0]).2))));
        }
        n = n + 1;
    }
    assert(lv.drop_first().take(ls.len() - 1) =~= lv.drop_first());
    Ok(result)
}


/// The blocks of the lines from `from` on, each closed by `sep`.
fn read_blocks(ls: &Vec<Vec<char>>, from: usize, sep: &Vec<char>) -> (r: Vec<Vec<char>>)
    requires
        from <= ls.len(),
    ensures
        views(r@) == blocks_of(views(ls@).skip(from as int), sep@),
{
    let ghost lv = views(ls@).skip(from as int);
    let mut cur: Vec<char> = Vec::new();
    let mut blocks: Vec<Vec<char>> = Vec::new();
    let mut n: usize = from;
    assert(lv.take(0) =~= Seq::<Seq<char>>::empty());
    assert(views(blocks@) =~= Seq::<Seq<char>>::empty());
    while n < ls.len()
        invariant
            from <= n <= ls.len(),
            lv == views(ls@).skip(from as int),
            block_state(lv.take(n - from), sep@) == (cur@, views(blocks@)),
        decreases ls.len() - n,
    {
        let line = &ls[n];
        assert(lv.take(n - from + 1).drop_last() =~= lv.take(n - from));
        assert(lv.take(n - from + 1).last() == line@);
        if !same_chars(line, sep) {
            append_line(&mut cur, line);
        } else {
            let ghost before = blocks@;
            let ghost block = cur@;
            blocks.push(cur);
            cur = Vec::new();
            assert(views(blocks@) =~= views(before).push(block));
        }
        n = n + 1;
    }
    assert(lv.take(ls.len() - from) =~= lv);
    blocks
}

fn jobs_of_inputs(ins: &Vec<Vec<char>>) -> (r: Vec<Job>)
    ensures
        jobs_for_inputs(r@, views(ins@)),
{
    let empty: Vec<char> = Vec::new();
    let mut result: Vec<Job> = Vec::new();
    let mut k: usize = 0;
    while k < ins.len()
        invariant
            k <= ins.len(),
            empty@ == Seq::<char>::empty(),
            result.len() == k,
            forall|x: int| 0 <= x < k ==> job_is(#[trigger] result@[x], x, ins@[x]@, Seq::empty()),
        decreases ins.len() - k,
    {
        let job = new_job(k, &ins[k], &empty);
        result.push(job);
        k = k + 1;
    }
    result
}

/// Reads a reference-program file of kind `simple` or `glob`.
pub fn parse_pal(input: &str) -> (r: Result<Vec<Job>, ParseError>)
    ensures
        pal_outcome(input@, r),
{
    let text = chars_of(input);
    let ls = lines(&text);
    if ls.len() == 0 {
        return Err(ParseError::UnexpectedEOF(error_text("Input ends when reading config type.")));
    }
    let simple = chars_of("simple");
    let glob = chars_of("glob");
    let is_simple = same_chars(&ls[0], &simple);
    if !is_simple && !same_chars(&ls[0], &glob) {
        return Err(ParseError::UnkownInputType(string_of(&ls[0])));
    }
    if ls.len() < 2 {
        return Err(ParseError::UnexpectedEOF(error_text("Input ends when reading separator.")));
    }
    let blocks = read_blocks(&ls, 2, &ls[1]);
    if is_simple {
        Ok(jobs_of_inputs(&blocks))
    } else {
        let ghost bv = views(blocks@);
        let mut expanded: Vec<Vec<char>> = Vec::new();
        let mut k: usize = 0;
        assert(bv.take(0) =~= Seq::<Seq<char>>::empty());
        assert(views(expanded@) =~= Seq::<Seq<char>>::empty());
        while k < blocks.len()
            invariant
                k <= blocks.len(),
                bv == views(blocks@),
                views(expanded@) == expand_list(bv.take(k as int)),
            decreases blocks.len() - k,
        {
            assert(bv.take(k + 1).drop_last() =~= bv.take(k as int));
            let block = copy_chars(&blocks[k]);
            expand_into(block, &mut expanded);
            k = k + 1;
        }
        assert(bv.take(blocks.len() as int) =~= bv);
        Ok(jobs_of_inputs(&expanded))
    }
}

/// Reads the count line of a random file.
fn parse_count_exec(l: &Vec<char>) -> (r: Option<usize>)
    ensures
        match parse_count(l@) {
            None => r is None,
            Some(n) => r == Some(n as usize),
        },
{
    let d = if l.len() > 0 && l[0] == '+' {
        let mut d: Vec<char> = Vec::new();
        let mut k: usize = 1;
        while k < l.len()
            invariant
                1 <= k <= l.len(),
                l@[0] == '+',
                d@ == l@.subrange(1, k as int),
            decreases l.len() - k,
        {
            d.push(l[k]);
            assert(l@.subrange(1, k + 1) =~= l@.subrange(1, k as int).push(l@[k as int]));
            k = k + 1;
        }
        assert(d@ =~= l@.drop_first());
        d
    } else {
        copy_chars(l)
    };
    if d.len() == 0 {
        return None;
    }
    let (end, value) = scan_digits(&d, 0);
    proof {
        lemma_digits_end(d@, 0);
    }
    assert(d@ == if l@.len() > 0 && l@[0] == '+' {
        l@.drop_first()
    } else {
        l@
    });
    if end < d.len() {
        assert(!is_digit(d@[end as int]));
        assert(!all_digits(d@));
        return None;
    }
    assert(d@.subrange(0, d.len() as int) =~= d@);
    match value {
        Some(v) => if v <= usize::MAX as u64 {
            Some(v as usize)
        } else {
            None
        },
        None => None,
    }
}

/// Reads a random file: each template yields the count divided by the
/// number of templates jobs, each input one random resolution of the
/// template.
pub fn parse_random_pal(input: &str) -> (r: Result<Vec<Job>, ParseError>)
    ensures
        random_outcome(input@, r),
{
    let text = chars_of(input);
    let ls = lines(&text);
    if ls.len() == 0 {
        return Err(ParseError::UnexpectedEOF(error_text("Input ends when reading tests num.")));
    }
    let tests_num = match parse_count_exec(&ls[0]) {
        Some(n) => n,
        None => {
            return Err(ParseError::FormatError(error_text("Cannot parse tests num.")));
        },
    };
    if ls.len() < 2 {
        return Err(ParseError::UnexpectedEOF(error_text("Input ends when reading separator.")));
    }
    let blocks = read_blocks(&ls, 2, &ls[1]);
    if blocks.len() == 0 {
        return Err(ParseError::FormatError(error_text("No input template.")));
    }
    let per = tests_num / blocks.len();
    let ghost bv = views(blocks@);
    let ghost per_n = per as nat;
    let mut result: Vec<Job> = Vec::new();
    let mut b: usize = 0;
    assert(bv.take(0) =~= Seq::<Seq<char>>::empty());
    while b < blocks.len()
        invariant
            b <= blocks.len(),
            bv == views(blocks@),
            bv == pal_blocks(lines_of(input@)),
            lines_of(input@).len() >= 2,
            parse_count(lines_of(input@)[0]) is Some,
            bv.len() > 0,
            per_n == parse_count(lines_of(input@)[0])->0 / bv.len(),
            per_n == per,
            jobs_from_templates(result@, repeat_each(bv.take(b as int), per_n)),
        decreases blocks.len() - b,
    {
        let mut q: usize = 0;
        let ghost done = repeat_each(bv.take(b as int), per_n);
        assert(done + Seq::new(0, |x: int| bv[b as int]) =~= done);
        while q < per
            invariant
                b < blocks.len(),
                q <= per,
                bv == views(blocks@),
                bv == pal_blocks(lines_of(input@)),
            lines_of(input@).len() >= 2,
            parse_count(lines_of(input@)[0]) is Some,
            bv.len() > 0,
            per_n == parse_count(lines_of(input@)[0])->0 / bv.len(),
                lines_of(input@).len() >= 2,
                parse_count(lines_of(input@)[0]) is Some,
                bv.len() > 0,
                per_n == parse_count(lines_of(input@)[0])->0 / bv.len(),
                per_n == per,
                done == repeat_each(bv.take(b as int), per_n),
                jobs_from_templates(result@, done + Seq::new(q as nat, |x: int| bv[b as int])),
            decreases per - q,
        {
            let block = copy_chars(&blocks[b]);
            match resolve_random(block) {
                None => {
                    assert(!always_resolves(bv[b as int]));
                    assert(!always_resolves(pal_blocks(lines_of(input@))[b as int]));
                    return Err(ParseError::FormatError(error_text("A template holds an empty range.")));
                },
                Some(t) => {
                    let ghost ts = done + Seq::new(q as nat, |x: int| bv[b as int]);
                    let ghost ts2 = done + Seq::new((q + 1) as nat, |x: int| bv[b as int]);
                    let ghost before = result@;
                    let empty: Vec<char> = Vec::new();
                    let job = new_job(result.len(), &t, &empty);
                    result.push(job);
                    assert(ts2 =~= ts.push(bv[b as int]));
                    assert forall|k: int| 0 <= k < result@.len() implies job_from_template(
                        #[trigger] result@[k],
                        k,
                        ts2[k],
                    ) by {
                        if k < before.len() {
                            assert(result@[k] == before[k]);
                            assert(ts2[k] == ts[k]);
                            assert(job_from_template(before[k], k, ts[k]));
                        } else {
                            assert(ts2[k] == bv[b as int]);
                            assert(expand_all(ts2[k]).contains(t@) && job_is(result@[k], k, t@, Seq::empty()));
                        }
                    }
                },
            }
            q = q + 1;
        }
        assert(bv.take(b + 1).drop_last() =~= bv.take(b as int));
        assert(repeat_each(bv.take(b + 1), per_n) =~= done + Seq::new(per_n, |x: int| bv[b as int]));
        b = b + 1;
    }
    assert(bv.take(blocks.len() as int) =~= bv);
    Ok(result)
}

/// Reads a test file of the given kind.
pub fn parse(pal_type: &PalType, input: &str) -> (r: Result<Vec<Job>, ParseError>)
    requires
        !(pal_type is Retest),
    ensures
        pal_type is Check ==> check_outcome(input@, r),
        pal_type is Pal ==> pal_outcome(input@, r),
        pal_type is RandomPal ==> random_outcome(input@, r),
{
    match pal_type {
        PalType::Check => parse_check(input),
        PalType::Pal => parse_pal(input),
        PalType::RandomPal => parse_random_pal(input),
        PalType::Retest => parse_check(input),
    }
}

/// Expands every bracket expression of a template, giving each string it
/// stands for, in order.
pub fn expand_glob(input: String) -> (r: Vec<String>)
    ensures
        r@.map_values(|s: String| s@) == expand_all(input@),
{
    let chars = chars_of(input.as_str());
    let mut expanded: Vec<Vec<char>> = Vec::new();
    expand_into(chars, &mut expanded);
    assert(views(expanded@) =~= expand_all(input@));
    let mut r: Vec<String> = Vec::new();
    let mut k: usize = 0;
    while k < expanded.len()
        invariant
            k <= expanded.len(),
            r@.map_values(|s: String| s@) == views(expanded@).take(k as int),
        decreases expanded.len() - k,
    {
        let ghost before = r@;
        r.push(string_of(&expanded[k]));
        assert(r@.map_values(|s: String| s@) =~= before.map_values(|s: String| s@).push(expanded@[k as int]@));
        assert(views(expanded@).take(k + 1) =~= views(expanded@).take(k as int).push(expanded@[k as int]@));
        k = k + 1;
    }
    assert(views(expanded@).take(expanded.len() as int) =~= views(expanded@));
    r
}

/// Resolves every bracket expression of a template by one random choice
/// each: the result is one of the strings that full expansion gives, so
/// no bracket is left and each number drawn lies within its range. `None`
/// comes only where a choice met an empty range.
pub fn expand_random(input: String) -> (r: Option<String>)
    ensures
        r matches Some(t) ==> expand_all(input@).contains(t@) && !has_bracket(t@),
        r is None ==> !always_resolves(input@),
{
    let chars = chars_of(input.as_str());
    proof {
        lemma_expand_all_resolved(input@);
    }
    match resolve_random(chars) {
        Some(t) => Some(string_of(&t)),
        None => None,
    }
}


/// The lines of a block joined back, each with its line break.
pub open spec fn join_lines(ls: Seq<Seq<char>>) -> Seq<char>
    decreases ls.len(),
{
    if ls.len() == 0 {
        Seq::empty()
    } else {
        join_lines(ls.drop_last()) + with_newline(ls.last())
    }
}

/// A check file's state after lines `ls`, read from state `st` on.
pub open spec fn check_run(
    st: (bool, Seq<char>, Seq<char>, Seq<(Seq<char>, Seq<char>)>),
    ls: Seq<Seq<char>>,
    sep: Seq<char>,
) -> (bool, Seq<char>, Seq<char>, Seq<(Seq<char>, Seq<char>)>)
    decreases ls.len(),
{
    if ls.len() == 0 {
        st
    } else {
        let (out, i, o, ps) = check_run(st, ls.drop_last(), sep);
        let line = ls.last();
        if line != sep {
            if !out {
                (false, i + with_newline(line), o, ps)
            } else {
                (true, i, o + with_newline(line), ps)
            }
        } else if !out {
            (true, i, o, ps)
        } else {
            (false, Seq::empty(), Seq::empty(), ps.push((i, o)))
        }
    }
}

proof fn lemma_check_state_run(ls: Seq<Seq<char>>, sep: Seq<char>)
    ensures
        check_state(ls, sep) == check_run(
            (false, Seq::empty(), Seq::empty(), Seq::empty()),
            ls,
            sep,
        ),
    decreases ls.len(),
{
    if ls.len() > 0 {
        lemma_check_state_run(ls.drop_last(), sep);
    }
}

proof fn lemma_check_run_concat(
    st: (bool, Seq<char>, Seq<char>, Seq<(Seq<char>, Seq<char>)>),
    a: Seq<Seq<char>>,
    b: Seq<Seq<char>>,
    sep: Seq<char>,
)
    ensures
        check_run(st, a + b, sep) == check_run(check_run(st, a, sep), b, sep),
    decreases b.len(),
{
    if b.len() == 0 {
        assert(a + b =~= a);
    } else {
        assert((a + b).drop_last() =~= a + b.drop_last());
        lemma_check_run_concat(st, a, b.drop_last(), sep);
    }
}

/// Lines other than the separator extend the block being read.
proof fn lemma_check_run_block(
    out: bool,
    i: Seq<char>,
    o: Seq<char>,
    ps: Seq<(Seq<char>, Seq<char>)>,
    ls: Seq<Seq<char>>,
    sep: Seq<char>,
)
    requires
        forall|k: int| 0 <= k < ls.len() ==> #[trigger] ls[k] != sep,
    ensures
        check_run((out, i, o, ps), ls, sep) == if out {
            (true, i, o + join_lines(ls), ps)
        } else {
            (false, i + join_lines(ls), o, ps)
        },
    decreases ls.len(),
{
    if ls.len() == 0 {
        assert(i + Seq::<char>::empty() =~= i);
        assert(o + Seq::<char>::empty() =~= o);
    } else {
        lemma_check_run_block(out, i, o, ps, ls.drop_last(), sep);
        assert(ls.last() == ls[ls.len() - 1]);
        assert(i + join_lines(ls.drop_last()) + with_newline(ls.last()) =~= i + join_lines(ls));
        assert(o + join_lines(ls.drop_last()) + with_newline(ls.last()) =~= o + join_lines(ls));
    }
}

/// The lines of a check file made of `pairs` of blocks of lines: each
/// block closed by the separator.
pub open spec fn check_body(pairs: Seq<(Seq<Seq<char>>, Seq<Seq<char>>)>, sep: Seq<char>) -> Seq<Seq<char>>
    decreases pairs.len(),
{
    if pairs.len() == 0 {
        Seq::empty()
    } else {
        check_body(pairs.drop_last(), sep) + pairs.last().0 + seq![sep] + pairs.last().1 + seq![sep]
    }
}

/// The text of a file given as lines.
pub open spec fn text_of_lines(ls: Seq<Seq<char>>) -> Seq<char> {
    join_lines(ls)
}

/// The (input, expected output) texts of block pairs.
pub open spec fn joined_pairs(pairs: Seq<(Seq<Seq<char>>, Seq<Seq<char>>)>) -> Seq<(Seq<char>, Seq<char>)> {
    pairs.map_values(|p: (Seq<Seq<char>>, Seq<Seq<char>>)| (join_lines(p.0), join_lines(p.1)))
}

pub open spec fn plain_line(l: Seq<char>, sep: Seq<char>) -> bool {
    &&& l != sep
    &&& !l.contains('\n')
    &&& !(l.len() > 0 && l.last() == '\r')
}

proof fn lemma_check_body(pairs: Seq<(Seq<Seq<char>>, Seq<Seq<char>>)>, sep: Seq<char>)
    requires
        forall|k: int, x: int|
            0 <= k < pairs.len() && 0 <= x < pairs[k].0.len() ==> #[trigger] pairs[k].0[x] != sep,
        forall|k: int, x: int|
            0 <= k < pairs.len() && 0 <= x < pairs[k].1.len() ==> #[trigger] pairs[k].1[x] != sep,
    ensures
        check_run((false, Seq::empty(), Seq::empty(), Seq::empty()), check_body(pairs, sep), sep)
            == (false, Seq::<char>::empty(), Seq::<char>::empty(), joined_pairs(pairs)),
    decreases pairs.len(),
{
    let init = (false, Seq::<char>::empty(), Seq::<char>::empty(), Seq::<(Seq<char>, Seq<char>)>::empty());
    if pairs.len() == 0 {
        assert(joined_pairs(pairs) =~= Seq::<(Seq<char>, Seq<char>)>::empty());
    } else {
        let prev = pairs.drop_last();
        let (ins, outs) = pairs.last();
        assert forall|k: int, x: int| 0 <= k < prev.len() && 0 <= x < prev[k].0.len() implies #[trigger] prev[k].0[x] != sep by {
            assert(prev[k] == pairs[k]);
        }
        assert forall|k: int, x: int| 0 <= k < prev.len() && 0 <= x < prev[k].1.len() implies #[trigger] prev[k].1[x] != sep by {
            assert(prev[k] == pairs[k]);
        }
        lemma_check_body(prev, sep);
        let ps = joined_pairs(prev);
        let body = check_body(prev, sep);
        assert forall|x: int| 0 <= x < ins.len() implies #[trigger] ins[x] != sep by {
            assert(pairs[pairs.len() - 1].0[x] != sep);
        }
        assert forall|x: int| 0 <= x < outs.len() implies #[trigger] outs[x] != sep by {
            assert(pairs[pairs.len() - 1].1[x] != sep);
        }
        lemma_check_run_concat(init, body + ins + seq![sep] + outs, seq![sep], sep);
        lemma_check_run_concat(init, body + ins + seq![sep], outs, sep);
        lemma_check_run_concat(init, body + ins, seq![sep], sep);
        lemma_check_run_concat(init, body, ins, sep);
        lemma_check_run_block(false, Seq::empty(), Seq::empty(), ps, ins, sep);
        assert(Seq::<char>::empty() + join_lines(ins) =~= join_lines(ins));
        let st1 = (false, join_lines(ins), Seq::<char>::empty(), ps);
        assert(seq![sep].drop_last() =~= Seq::<Seq<char>>::empty());
        assert(check_run(st1, seq![sep].drop_last(), sep) == st1);
        assert(seq![sep].last() == sep);
        assert(check_run(st1, seq![sep], sep) == (true, join_lines(ins), Seq::<char>::empty(), ps));
        lemma_check_run_block(true, join_lines(ins), Seq::empty(), ps, outs, sep);
        assert(Seq::<char>::empty() + join_lines(outs) =~= join_lines(outs));
        let st3 = (true, join_lines(ins), join_lines(outs), ps);
        assert(check_run(st3, seq![sep].drop_last(), sep) == st3);
        assert(check_run(st3, seq![sep], sep) == (false, Seq::<char>::empty(), Seq::<char>::empty(), ps.push((join_lines(ins), join_lines(outs)))));
        assert(joined_pairs(pairs) =~= ps.push((join_lines(ins), join_lines(outs))));
    }
}

/// A line and a line break before more text: the line ends there.
proof fn lemma_split_line(l: Seq<char>, rest: Seq<char>, cur: Seq<char>)
    requires
        !l.contains('\n'),
    ensures
        split_lines(l + seq!['\n'] + rest, cur) == seq![strip_cr(cur + l)] + split_lines(rest, Seq::empty()),
    decreases l.len(),
{
    if l.len() == 0 {
        assert(l + seq!['\n'] + rest =~= seq!['\n'] + rest);
        assert((seq!['\n'] + rest).drop_first() =~= rest);
        assert(cur + l =~= cur);
    } else {
        let s = l + seq!['\n'] + rest;
        assert(s[0] == l[0]);
        assert(s.drop_first() =~= l.drop_first() + seq!['\n'] + rest);
        assert(!l.drop_first().contains('\n')) by {
            if l.drop_first().contains('\n') {
                let x = choose|x: int| 0 <= x < l.drop_first().len() && l.drop_first()[x] == '\n';
                assert(l[x + 1] == '\n');
            }
        }
        assert(l[0] != '\n') by {
            if l[0] == '\n' {
                assert(l.contains('\n'));
            }
        }
        lemma_split_line(l.drop_first(), rest, cur.push(l[0]));
        assert(cur.push(l[0]) + l.drop_first() =~= cur + l);
    }
}

/// Joining lines that hold no line break and do not end in a carriage
/// return, then splitting the text, gives the lines back.
proof fn lemma_lines_of_joined(ls: Seq<Seq<char>>)
    requires
        forall|k: int| 0 <= k < ls.len() ==> !(#[trigger] ls[k]).contains('\n') && !(ls[k].len() > 0 && ls[k].last() == '\r'),
    ensures
        lines_of(join_lines(ls)) == ls,
    decreases ls.len(),
{
    if ls.len() > 0 {
        let rest = ls.drop_first();
        assert forall|k: int| 0 <= k < rest.len() implies !(#[trigger] rest[k]).contains('\n') && !(rest[k].len() > 0 && rest[k].last() == '\r') by {
            assert(rest[k] == ls[k + 1]);
        }
        lemma_lines_of_joined(rest);
        lemma_join_first(ls);
        assert(!ls[0].contains('\n'));
        lemma_split_line(ls[0], join_lines(rest), Seq::empty());
        assert(Seq::<char>::empty() + ls[0] =~= ls[0]);
        assert(ls[0] + seq!['\n'] + join_lines(rest) =~= with_newline(ls[0]) + join_lines(rest));
        assert(seq![ls[0]] + rest =~= ls);
    }
}

proof fn lemma_join_first(ls: Seq<Seq<char>>)
    requires
        ls.len() > 0,
    ensures
        join_lines(ls) == with_newline(ls[0]) + join_lines(ls.drop_first()),
    decreases ls.len(),
{
    if ls.len() == 1 {
        assert(ls.drop_last() =~= Seq::<Seq<char>>::empty());
        assert(ls.drop_first() =~= Seq::<Seq<char>>::empty());
        assert(Seq::<char>::empty() + with_newline(ls[0]) =~= with_newline(ls[0]));
        assert(with_newline(ls[0]) + Seq::<char>::empty() =~= with_newline(ls[0]));
    } else {
        lemma_join_first(ls.drop_last());
        assert(ls.drop_last().drop_first() =~= ls.drop_first().drop_last());
        assert(ls.drop_first().last() == ls.last());
        assert(with_newline(ls[0]) + join_lines(ls.drop_first().drop_last()) + with_newline(ls.last())
            =~= with_newline(ls[0]) + (join_lines(ls.drop_first().drop_last()) + with_newline(ls.last())));
    }
}

/// A check file made of a separator line, then `K` pairs of blocks each
/// closed by the separator, reads as exactly `K` jobs with ids `0` to
/// `K - 1`: the input of each is its first block and the expected output
/// its second, each line with its line break, separator lines left out.
pub proof fn lemma_check_file_jobs(
    sep: Seq<char>,
    pairs: Seq<(Seq<Seq<char>>, Seq<Seq<char>>)>,
    r: Result<Vec<Job>, ParseError>,
)
    requires
        !sep.contains('\n'),
        !(sep.len() > 0 && sep.last() == '\r'),
        forall|k: int, x: int|
            0 <= k < pairs.len() && 0 <= x < pairs[k].0.len() ==> plain_line(#[trigger] pairs[k].0[x], sep),
        forall|k: int, x: int|
            0 <= k < pairs.len() && 0 <= x < pairs[k].1.len() ==> plain_line(#[trigger] pairs[k].1[x], sep),
        check_outcome(text_of_lines(seq![sep] + check_body(pairs, sep)), r),
    ensures
        r is Ok,
        (r->Ok_0)@.len() == pairs.len(),
        forall|k: int|
            0 <= k < pairs.len() ==> {
                &&& (#[trigger] (r->Ok_0)@[k]).id == k
                &&& (r->Ok_0)@[k].input@ == encode_utf8(join_lines(pairs[k].0))
                &&& (r->Ok_0)@[k].expected_output@ == encode_utf8(join_lines(pairs[k].1))
            },
{
    let body = check_body(pairs, sep);
    let doc = seq![sep] + body;
    lemma_check_body_lines(pairs, sep);
    assert forall|k: int| 0 <= k < doc.len() implies !(#[trigger] doc[k]).contains('\n') && !(doc[k].len() > 0 && doc[k].last() == '\r') by {
        if k > 0 {
            assert(doc[k] == body[k - 1]);
        }
    }
    lemma_lines_of_joined(doc);
    assert(doc.drop_first() =~= body);
    assert(doc[0] == sep);
    assert forall|k: int, x: int| 0 <= k < pairs.len() && 0 <= x < pairs[k].0.len() implies #[trigger] pairs[k].0[x] != sep by {
        assert(plain_line(pairs[k].0[x], sep));
    }
    assert forall|k: int, x: int| 0 <= k < pairs.len() && 0 <= x < pairs[k].1.len() implies #[trigger] pairs[k].1[x] != sep by {
        assert(plain_line(pairs[k].1[x], sep));
    }
    lemma_check_body(pairs, sep);
    lemma_check_state_run(body, sep);
    let js = (r->Ok_0)@;
    assert forall|k: int| 0 <= k < pairs.len() implies {
        &&& (#[trigger] (r->Ok_0)@[k]).id == k
        &&& (r->Ok_0)@[k].input@ == encode_utf8(join_lines(pairs[k].0))
        &&& (r->Ok_0)@[k].expected_output@ == encode_utf8(join_lines(pairs[k].1))
    } by {
        assert(job_is(js[k], k, joined_pairs(pairs)[k].0, joined_pairs(pairs)[k].1));
    }
}

/// Every line of a check file body is a plain line or the separator.
proof fn lemma_check_body_lines(pairs: Seq<(Seq<Seq<char>>, Seq<Seq<char>>)>, sep: Seq<char>)
    requires
        !sep.contains('\n'),
        !(sep.len() > 0 && sep.last() == '\r'),
        forall|k: int, x: int|
            0 <= k < pairs.len() && 0 <= x < pairs[k].0.len() ==> plain_line(#[trigger] pairs[k].0[x], sep),
        forall|k: int, x: int|
            0 <= k < pairs.len() && 0 <= x < pairs[k].1.len() ==> plain_line(#[trigger] pairs[k].1[x], sep),
    ensures
        forall|k: int| 0 <= k < check_body(pairs, sep).len() ==> !(#[trigger] check_body(pairs, sep)[k]).contains('\n') && !(check_body(pairs, sep)[k].len() > 0 && check_body(pairs, sep)[k].last() == '\r'),
    decreases pairs.len(),
{
    if pairs.len() > 0 {
        let prev = pairs.drop_last();
        assert forall|k: int, x: int| 0 <= k < prev.len() && 0 <= x < prev[k].0.len() implies plain_line(#[trigger] prev[k].0[x], sep) by {
            assert(prev[k] == pairs[k]);
        }
        assert forall|k: int, x: int| 0 <= k < prev.len() && 0 <= x < prev[k].1.len() implies plain_line(#[trigger] prev[k].1[x], sep) by {
            assert(prev[k] == pairs[k]);
        }
        lemma_check_body_lines(prev, sep);
        let b0 = check_body(prev, sep);
        let (ins, outs) = pairs.last();
        let all = check_body(pairs, sep);
        assert(all == b0 + ins + seq![sep] + outs + seq![sep]);
        assert forall|k: int| 0 <= k < all.len() implies !(#[trigger] all[k]).contains('\n') && !(all[k].len() > 0 && all[k].last() == '\r') by {
            let n0 = b0.len() as int;
            let n1 = n0 + ins.len();
            let n2 = n1 + 1;
            let n3 = n2 + outs.len();
            if k < n0 {
                assert(all[k] == b0[k]);
            } else if k < n1 {
                assert(all[k] == ins[k - n0]);
                assert(plain_line(pairs[pairs.len() - 1].0[k - n0], sep));
            } else if k < n2 {
                assert(all[k] == sep);
            } else if k < n3 {
                assert(all[k] == outs[k - n2]);
                assert(plain_line(pairs[pairs.len() - 1].1[k - n2], sep));
            } else {
                assert(all[k] == sep);
            }
        }
    }
}

} // verus!
