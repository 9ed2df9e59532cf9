use contract_a::codec::decode;
use contract_a::codec::encode;
use contract_a::codec::BalanceExt;
use contract_a::contract::ONE_NEAR;

fn record(account: &[u8], balance: u128) -> BalanceExt {
    BalanceExt { account_id: account.to_vec(), balance }
}

#[test]
fn encode_is_the_fixed_wire_shape() {
    let bytes = encode(&record(b"carol", ONE_NEAR));
    let expected: &[u8] = b"{\"account_id\":\"carol\",\"balance\":\"1000000000000000000000000\"}";
    assert_eq!(bytes, expected.to_vec());
}

#[test]
fn encode_zero_balance() {
    let bytes = encode(&record(b"a", 0));
    assert_eq!(bytes, b"{\"account_id\":\"a\",\"balance\":\"0\"}".to_vec());
}

#[test]
fn round_trip_returns_the_record() {
    let samples: Vec<BalanceExt> = vec![
        record(b"carol", 0),
        record(b"carol", 1),
        record(b"challenge9-b.3ugen.testnet", 15 * ONE_NEAR),
        record(b"a_b.c-d", u128::MAX),
    ];
    for r in samples {
        let out = decode(&encode(&r)).expect("a valid record must decode");
        assert_eq!(out.account_id, r.account_id);
        assert_eq!(out.balance, r.balance);
    }
}

#[test]
fn decode_accepts_exact_wire_bytes() {
    let bytes = b"{\"account_id\":\"carol\",\"balance\":\"20000000000000000000000000\"}".to_vec();
    let r = decode(&bytes).expect("well-formed bytes must decode");
    assert_eq!(r.account_id, b"carol".to_vec());
    assert_eq!(r.balance, 20 * ONE_NEAR);
}

#[test]
fn decode_accepts_the_largest_balance() {
    let bytes =
        b"{\"account_id\":\"x\",\"balance\":\"340282366920938463463374607431768211455\"}".to_vec();
    assert_eq!(decode(&bytes).expect("the largest balance fits").balance, u128::MAX);
}

#[test]
fn decode_rejects_malformed_input() {
    let bad: Vec<Vec<u8>> = vec![
        b"".to_vec(),
        b"{}".to_vec(),
        b"not json at all".to_vec(),
        // wrong first field name
        b"{\"account\":\"carol\",\"balance\":\"1\"}".to_vec(),
        // empty account
        b"{\"account_id\":\"\",\"balance\":\"1\"}".to_vec(),
        // a quote cannot sit inside a handle
        b"{\"account_id\":\"ca\"rol\",\"balance\":\"1\"}".to_vec(),
        // upper case is not a handle byte
        b"{\"account_id\":\"Carol\",\"balance\":\"1\"}".to_vec(),
        // missing balance field
        b"{\"account_id\":\"carol\"}".to_vec(),
        // balance not quoted
        b"{\"account_id\":\"carol\",\"balance\":1}".to_vec(),
        // empty digit string
        b"{\"account_id\":\"carol\",\"balance\":\"\"}".to_vec(),
        // leading zero is not canonical
        b"{\"account_id\":\"carol\",\"balance\":\"01\"}".to_vec(),
        // non-digit inside the number
        b"{\"account_id\":\"carol\",\"balance\":\"12a3\"}".to_vec(),
        // truncated: no closing brace
        b"{\"account_id\":\"carol\",\"balance\":\"1\"".to_vec(),
        // trailing bytes after the object
        b"{\"account_id\":\"carol\",\"balance\":\"1\"} ".to_vec(),
        // whitespace inside is not the canonical shape
        b"{\"account_id\": \"carol\",\"balance\":\"1\"}".to_vec(),
        // one past the largest 128-bit value
        b"{\"account_id\":\"carol\",\"balance\":\"340282366920938463463374607431768211456\"}"
            .to_vec(),
        // far too many digits
        b"{\"account_id\":\"carol\",\"balance\":\"9999999999999999999999999999999999999999999\"}"
            .to_vec(),
    ];
    for bytes in bad {
        assert!(
            decode(&bytes).is_err(),
            "should have been rejected: {:?}",
            String::from_utf8_lossy(&bytes)
        );
    }
}
