//! How query ids, requests and responses read as text.
use crate::types::{group_query_id, QueryId, Request, Response};
use vstd::prelude::*;

verus! {

/// The character of a decimal digit.
pub open spec fn digit(d: nat) -> char
    recommends
        d < 10,
{
    ('0' as nat + d) as char
}

/// A number in decimal digits, without leading zeros.
pub open spec fn decimal(n: nat) -> Seq<char>
    decreases n,
{
    if n < 10 {
        seq![digit(n)]
    } else {
        decimal(n / 10).push(digit(n % 10))
    }
}

/// How a truth value reads.
pub open spec fn truth(b: bool) -> Seq<char> {
    if b {
        "true"@
    } else {
        "false"@
    }
}

/// How a request reads.
pub open spec fn request_text(req: Request) -> Seq<char> {
    match req {
        Request::Have(_, _) => "have"@,
        Request::Block(_, _) => "block"@,
        Request::Providers(_) => "providers"@,
        Request::MissingBlocks(_) => "missing-blocks"@,
    }
}

/// How a response reads: what was asked for, and the answer, of which only the number of peers or
/// blocks is told.
pub open spec fn response_text(res: Response) -> Seq<char> {
    match res {
        Response::Have(_, have) => "have "@ + truth(have),
        Response::Block(_, block) => "block "@ + truth(block),
        Response::Providers(providers) => "providers "@ + decimal(providers@.len()),
        Response::MissingBlocks(missing) => "missing-blocks "@ + decimal(missing@.len()),
    }
}

/// Two numbers that read the same are the same.
proof fn lemma_decimal_is_unique(a: nat, b: nat)
    requires
        decimal(a) == decimal(b),
    ensures
        a == b,
    decreases a,
{
    let (x, y) = (decimal(a), decimal(b));
    assert(x.last() == digit(a % 10) && y.last() == digit(b % 10));
    assert(x.len() == y.len());
    if a >= 10 {
        lemma_decimal_has_digits(a / 10);
        assert(b >= 10);
        assert(x.drop_last() =~= decimal(a / 10) && y.drop_last() =~= decimal(b / 10));
        lemma_decimal_is_unique(a / 10, b / 10);
    } else if b >= 10 {
        lemma_decimal_has_digits(b / 10);
    }
}

/// A number has at least one digit.
proof fn lemma_decimal_has_digits(n: nat)
    ensures
        decimal(n).len() > 0,
{
}

/// Different query ids read differently.
pub proof fn law_ids_read_apart(a: QueryId, b: QueryId)
    requires
        a != b,
    ensures
        decimal(a@ as nat) != decimal(b@ as nat),
{
    broadcast use group_query_id;

    if decimal(a@ as nat) == decimal(b@ as nat) {
        lemma_decimal_is_unique(a@ as nat, b@ as nat);
    }
}

/// The number that decimal digits stand for.
pub open spec fn value(digits: Seq<char>) -> int
    decreases digits.len(),
{
    if digits.len() == 0 {
        0
    } else {
        value(digits.drop_last()) * 10 + (digits.last() as int - '0' as int)
    }
}

/// The text is the number as it is usually written: decimal digits and nothing else, at least one,
/// and no leading zero unless it is the only digit.
pub open spec fn reads_as(text: Seq<char>, n: nat) -> bool {
    &&& text.len() > 0
    &&& forall|i: int| 0 <= i < text.len() ==> '0' as int <= #[trigger] text[i] as int <= '9' as int
    &&& text.len() > 1 ==> text[0] != '0'
    &&& value(text) == n
}

/// A number in decimal digits reads as that number.
pub proof fn law_decimal_reads_back(n: nat)
    ensures
        reads_as(decimal(n), n),
    decreases n,
{
    let text = decimal(n);
    assert(digit(n % 10) as int == '0' as int + n % 10);
    if n >= 10 {
        law_decimal_reads_back(n / 10);
        let before = decimal(n / 10);
        assert(text.drop_last() =~= before);
        assert(text[0] == before[0]);
        if before.len() == 1 {
            assert(before.drop_last().len() == 0);
            assert(value(before.drop_last()) == 0);
        }
    } else {
        assert(text.drop_last() =~= Seq::<char>::empty());
        assert(value(text.drop_last()) == 0);
    }
}

/// A request reads as the name of what is asked for: two requests read the same exactly if they ask
/// for the same thing, whichever peer and block they are about.
pub proof fn law_request_reads(a: Request, b: Request)
    ensures
        request_text(a) == request_text(b) <==> {
            &&& a is Have == b is Have
            &&& a is Block == b is Block
            &&& a is Providers == b is Providers
            &&& a is MissingBlocks == b is MissingBlocks
        },
        a is Have ==> request_text(a) == "have"@,
        a is Block ==> request_text(a) == "block"@,
        a is Providers ==> request_text(a) == "providers"@,
        a is MissingBlocks ==> request_text(a) == "missing-blocks"@,
{
    reveal_strlit("have");
    reveal_strlit("block");
    reveal_strlit("providers");
    reveal_strlit("missing-blocks");
    assert("have"@.len() == 4 && "block"@.len() == 5);
    assert("providers"@.len() == 9 && "missing-blocks"@.len() == 14);
}

/// A response reads as the name of what was asked for, a space, and the answer: whether a peer has
/// the block or sent it, or how many peers or blocks were reported.
pub proof fn law_response_reads(res: Response, req: Request)
    requires
        res is Have == req is Have,
        res is Block == req is Block,
        res is Providers == req is Providers,
    ensures
        exists|answer: Seq<char>|
            {
                &&& response_text(res) == #[trigger] (request_text(req) + " "@ + answer)
                &&& match res {
                    Response::Have(_, yes) => answer == (if yes {
                        "true"@
                    } else {
                        "false"@
                    }),
                    Response::Block(_, yes) => answer == (if yes {
                        "true"@
                    } else {
                        "false"@
                    }),
                    Response::Providers(peers) => reads_as(answer, peers@.len()),
                    Response::MissingBlocks(cids) => reads_as(answer, cids@.len()),
                }
            },
{
    reveal_strlit(" ");
    reveal_strlit("have");
    reveal_strlit("have ");
    reveal_strlit("block");
    reveal_strlit("block ");
    reveal_strlit("providers");
    reveal_strlit("providers ");
    reveal_strlit("missing-blocks");
    reveal_strlit("missing-blocks ");
    let answer = match res {
        Response::Have(_, yes) => truth(yes),
        Response::Block(_, yes) => truth(yes),
        Response::Providers(peers) => decimal(peers@.len()),
        Response::MissingBlocks(cids) => decimal(cids@.len()),
    };
    assert(response_text(res) =~= request_text(req) + " "@ + answer);
    if let Response::Providers(peers) = res {
        law_decimal_reads_back(peers@.len());
    }
    if let Response::MissingBlocks(cids) = res {
        law_decimal_reads_back(cids@.len());
    }
}

fn digit_text(d: u64) -> (text: &'static str)
    requires
        d < 10,
    ensures
        text@ == seq![digit(d as nat)],
{
    proof {
        reveal_strlit("0");
        reveal_strlit("1");
        reveal_strlit("2");
        reveal_strlit("3");
        reveal_strlit("4");
        reveal_strlit("5");
        reveal_strlit("6");
        reveal_strlit("7");
        reveal_strlit("8");
        reveal_strlit("9");
    }
    match d {
        0 => "0",
        1 => "1",
        2 => "2",
        3 => "3",
        4 => "4",
        5 => "5",
        6 => "6",
        7 => "7",
        8 => "8",
        _ => "9",
    }
}

fn decimal_text(n: u64) -> (text: String)
    ensures
        text@ == decimal(n as nat),
    decreases n,
{
    if n < 10 {
        digit_text(n).to_owned()
    } else {
        let mut text = decimal_text(n / 10);
        text.append(digit_text(n % 10));
        text
    }
}

fn truth_text(b: bool) -> (text: &'static str)
    ensures
        text@ == truth(b),
{
    if b {
        "true"
    } else {
        "false"
    }
}

impl QueryId {
    /// The number of the id in decimal digits.
    pub fn to_string(&self) -> (text: String)
        ensures
            text@ == decimal(self@ as nat),
    {
        decimal_text(self.number())
    }
}

impl Request {
    /// The name of what is asked for.
    pub fn to_string(&self) -> (text: String)
        ensures
            text@ == request_text(*self),
    {
        match self {
            Request::Have(_, _) => "have".to_owned(),
            Request::Block(_, _) => "block".to_owned(),
            Request::Providers(_) => "providers".to_owned(),
            Request::MissingBlocks(_) => "missing-blocks".to_owned(),
        }
    }
}

impl Response {
    /// The name of what was asked for, and a short form of the answer.
    pub fn to_string(&self) -> (text: String)
        ensures
            text@ == response_text(*self),
    {
        match self {
            Response::Have(_, have) => "have ".to_owned().concat(truth_text(*have)),
            Response::Block(_, block) => "block ".to_owned().concat(truth_text(*block)),
            Response::Providers(providers) => "providers ".to_owned().concat(
                decimal_text(providers.len() as u64).as_str(),
            ),
            Response::MissingBlocks(missing) => "missing-blocks ".to_owned().concat(
                decimal_text(missing.len() as u64).as_str(),
            ),
        }
    }
}

} // verus!
