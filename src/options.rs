//! The command line of the analyser: a file path, then flags that ask for reports.
use vstd::prelude::*;
use vstd::string::StringExecFns;
use crate::stats::views;

verus! {

/// What one request asks for, over plain values.
pub enum RequestView {
    WordCount,
    Stats,
    Word(Seq<char>),
    MissingWord,
    UnknownFlag(Seq<char>),
}

/// One report asked for on the command line, or a flag that could not be used.
pub enum Request {
    /// No flag was given: report the number of words.
    WordCount,
    /// `--stats`: report the counts and the ranked frequency table.
    Stats,
    /// `--word W`: report how often `W` occurs.
    Word(String),
    /// `--word` stood last, without its word.
    MissingWord,
    /// A flag that the analyser does not know.
    UnknownFlag(String),
}

impl View for Request {
    type V = RequestView;

    open spec fn view(&self) -> RequestView {
        match self {
            Request::WordCount => RequestView::WordCount,
            Request::Stats => RequestView::Stats,
            Request::Word(w) => RequestView::Word(w@),
            Request::MissingWord => RequestView::MissingWord,
            Request::UnknownFlag(f) => RequestView::UnknownFlag(f@),
        }
    }
}

/// The requests that a list of flags makes, in order. `--word` takes the
/// argument after it as its word; where none follows, it is missing.
pub open spec fn requests_of(flags: Seq<Seq<char>>) -> Seq<RequestView>
    decreases flags.len(),
{
    if flags.len() == 0 {
        Seq::empty()
    } else if flags[0] == "--stats"@ {
        seq![RequestView::Stats] + requests_of(flags.drop_first())
    } else if flags[0] == "--word"@ {
        if flags.len() >= 2 {
            seq![RequestView::Word(flags[1])] + requests_of(flags.skip(2))
        } else {
            seq![RequestView::MissingWord]
        }
    } else {
        seq![RequestView::UnknownFlag(flags[0])] + requests_of(flags.drop_first())
    }
}

/// The requests of a command line whose arguments after the path are `flags`:
/// the word count alone where there are none.
pub open spec fn invocation_requests(flags: Seq<Seq<char>>) -> Seq<RequestView> {
    if flags.len() == 0 {
        seq![RequestView::WordCount]
    } else {
        requests_of(flags)
    }
}

/// A parsed command line: the file to read and the reports to give, in order.
pub struct Invocation {
    pub path: String,
    pub requests: Vec<Request>,
}

/// Reads the arguments that follow the program name. There is no invocation
/// without a path; otherwise the first argument is the path and the rest are flags.
pub fn parse_args(args: &Vec<String>) -> (r: Option<Invocation>)
    ensures
        r is None <==> args@.len() == 0,
        r matches Some(inv) ==> inv.path@ == args@[0]@ && inv.requests@.map_values(
            |q: Request| q@,
        ) == invocation_requests(views(args@).drop_first()),
{
    if args.len() == 0 {
        return None;
    }
    let ghost flags = views(args@).drop_first();
    let stats_flag = String::from_str("--stats");
    let word_flag = String::from_str("--word");
    let n = args.len();
    let mut requests: Vec<Request> = Vec::new();
    if n == 1 {
        requests.push(Request::WordCount);
        assert(requests@.map_values(|q: Request| q@) =~= seq![RequestView::WordCount]);
        return Some(Invocation { path: args[0].clone(), requests });
    }
    let mut i: usize = 1;
    assert(flags.skip(0) =~= flags);
    assert(requests@.map_values(|q: Request| q@) + requests_of(flags) =~= requests_of(flags));
    while i < n
        invariant_except_break
            n == args@.len(),
            flags == views(args@).drop_first(),
            stats_flag@ == "--stats"@,
            word_flag@ == "--word"@,
            1 <= i <= n,
            requests_of(flags) == requests@.map_values(|q: Request| q@) + requests_of(
                flags.skip(i - 1),
            ),
        ensures
            requests_of(flags) == requests@.map_values(|q: Request| q@),
        decreases n - i,
    {
        let ghost rest = flags.skip(i - 1);
        if i + 1 == n {
            assert(flags.skip(i as int) =~= Seq::<Seq<char>>::empty());
            assert(requests@.map_values(|q: Request| q@) + Seq::<RequestView>::empty()
                =~= requests@.map_values(|q: Request| q@));
        }
        let ghost before = requests@.map_values(|q: Request| q@);
        assert(rest[0] == args@[i as int]@);
        if args[i] == stats_flag {
            requests.push(Request::Stats);
            assert(rest.drop_first() =~= flags.skip(i as int));
            assert(requests@.map_values(|q: Request| q@) =~= before.push(RequestView::Stats));
            assert(before + requests_of(rest) =~= requests@.map_values(|q: Request| q@)
                + requests_of(flags.skip(i as int)));
            i = i + 1;
        } else if args[i] == word_flag {
            if i + 1 < n {
                requests.push(Request::Word(args[i + 1].clone()));
                assert(rest[1] == args@[i + 1]@);
                assert(rest.skip(2) =~= flags.skip(i + 1));
                assert(requests@.map_values(|q: Request| q@) =~= before.push(
                    RequestView::Word(args@[i + 1]@),
                ));
                assert(before + requests_of(rest) =~= requests@.map_values(|q: Request| q@)
                    + requests_of(flags.skip(i + 1)));
                i = i + 2;
                if i == n {
                    assert(flags.skip(i - 1) =~= Seq::<Seq<char>>::empty());
                    assert(requests@.map_values(|q: Request| q@) + Seq::<RequestView>::empty()
                        =~= requests@.map_values(|q: Request| q@));
                }
            } else {
                requests.push(Request::MissingWord);
                assert(requests@.map_values(|q: Request| q@) =~= before.push(
                    RequestView::MissingWord,
                ));
                assert(before + requests_of(rest) =~= requests@.map_values(|q: Request| q@));
                break ;
            }
        } else {
            requests.push(Request::UnknownFlag(args[i].clone()));
            assert(rest.drop_first() =~= flags.skip(i as int));
            assert(requests@.map_values(|q: Request| q@) =~= before.push(
                RequestView::UnknownFlag(args@[i as int]@),
            ));
            assert(before + requests_of(rest) =~= requests@.map_values(|q: Request| q@)
                + requests_of(flags.skip(i as int)));
            i = i + 1;
        }
    }
    Some(Invocation { path: args[0].clone(), requests })
}

} // verus!
