use orderbook::cli::{Args, CliError};
use orderbook::exchanges::{Binance, Bitstamp, ExchangeType, ExchangeTypeError};
use orderbook::server::OrderbookSummaryService;

#[test]
fn test_exchange_from_str() {
    assert_eq!(ExchangeType::from_str("binance"), Ok(ExchangeType::Binance));
    assert_eq!(ExchangeType::from_str("Binance"), Ok(ExchangeType::Binance));
    assert_eq!(ExchangeType::from_str("BITSTAMP"), Ok(ExchangeType::Bitstamp));
    assert_eq!(ExchangeType::from_str("bitstamp"), Ok(ExchangeType::Bitstamp));
    assert_eq!(
        ExchangeType::from_str("kraken"),
        Err(ExchangeTypeError::UnknownTypeError)
    );
    assert_eq!(
        ExchangeType::from_str(""),
        Err(ExchangeTypeError::UnknownTypeError)
    );
}

#[test]
fn test_exchange_to_string() {
    assert_eq!(ExchangeType::Binance.to_string(), "Binance");
    assert_eq!(ExchangeType::Bitstamp.to_string(), "Bitstamp");
}

#[test]
fn test_args_depth_check() {
    let args = Args {
        max_depth: 0,
        exchanges: vec!["binance".to_string()],
        port: "50051".to_string(),
        symbol: "ethbtc".to_string(),
    };
    assert_eq!(
        args.check_max_depth(),
        Err(CliError::MaxDepthNotGreaterThanZeroError)
    );
    let args = Args { max_depth: 10, ..args };
    assert_eq!(args.check_max_depth(), Ok(()));
}

#[test]
fn test_args_parse_exchanges() {
    let args = Args {
        max_depth: 10,
        exchanges: vec!["binance".to_string(), "Bitstamp".to_string()],
        port: "50051".to_string(),
        symbol: "ethbtc".to_string(),
    };
    assert_eq!(
        args.parse_exchanges(),
        Ok(vec![ExchangeType::Binance, ExchangeType::Bitstamp])
    );
    let args = Args { exchanges: vec!["binance".to_string(), "mt_gox".to_string()], ..args };
    assert_eq!(
        args.parse_exchanges(),
        Err(ExchangeTypeError::UnknownTypeError)
    );
}

#[test]
fn test_binance_url() {
    let url = Binance::url(&b"ethbtc".to_vec(), 20);
    assert_eq!(
        String::from_utf8(url).unwrap(),
        "wss://stream.binance.com:9443/ws/ethbtc@depth20@100ms"
    );
}

#[test]
fn test_bitstamp_url_and_subscribe() {
    assert_eq!(
        String::from_utf8(Bitstamp::url()).unwrap(),
        "wss://ws.bitstamp.net"
    );
    let frame = Bitstamp::subscribe_frame(&b"ethbtc".to_vec());
    assert_eq!(
        String::from_utf8(frame).unwrap(),
        r#"{"event":"bts:subscribe","data":{"channel":"order_book_ethbtc"}}"#
    );
}

#[test]
fn test_venue_names() {
    assert_eq!(Binance {}.name(), ExchangeType::Binance);
    assert_eq!(Bitstamp {}.name(), ExchangeType::Bitstamp);
}

#[test]
fn test_service_holds_configuration() {
    let svc = OrderbookSummaryService::new(
        b"ethbtc".to_vec(),
        10,
        vec![ExchangeType::Binance, ExchangeType::Bitstamp],
    );
    assert_eq!(svc.symbol, b"ethbtc".to_vec());
    assert_eq!(svc.max_depth, 10);
    assert_eq!(svc.exchanges, vec![ExchangeType::Binance, ExchangeType::Bitstamp]);
}
