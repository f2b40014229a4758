use deribit::trade_chart::{Candle, Resolution, Trade, TradeLog};

#[test]
fn test_candle_create() {
    let mut trade1 = Trade::new();
    trade1.timestamp = 1;
    trade1.price = 10;
    trade1.amount = 10;
    let c = Candle::create(&trade1, &Resolution::Minute1);

    assert_eq!(10, c.open);
    assert_eq!(10, c.high);
    assert_eq!(10, c.low);
    assert_eq!(10, c.close);
    assert_eq!(10, c.cost);

    let c = Candle::create(&trade1, &Resolution::Minute3);
    assert_eq!(Resolution::Minute3.minutes() * 60, c.duration);
}

#[test]
fn test_candle_update() {
    let mut candle = Candle::new();

    let mut trade1 = Trade::new();
    trade1.timestamp = 1;
    trade1.price = 10;
    trade1.amount = 10;
    candle.update(&trade1).unwrap();

    trade1.timestamp = 2;
    trade1.price = 5;
    trade1.amount = 10;
    candle.update(&trade1).unwrap();

    trade1.timestamp = 3;
    trade1.price = 7;
    trade1.amount = 10;
    candle.update(&trade1).unwrap();

    trade1.timestamp = 4;
    trade1.price = 55;
    trade1.amount = 10;
    candle.update(&trade1).unwrap();

    trade1.timestamp = 5;
    trade1.price = 30;
    trade1.amount = 10;
    candle.update(&trade1).unwrap();

    println!("{:?}", candle);

    assert_eq!(10, candle.open);
    assert_eq!(55, candle.high);
    assert_eq!(5, candle.low);
    assert_eq!(30, candle.close);

    assert_eq!(50, candle.cost);

    trade1.timestamp = 22;
    trade1.price = 80;
    trade1.amount = 10;
    candle.update(&trade1).unwrap();

    assert_eq!(80, candle.high);
    assert_eq!(80, candle.close);
    assert_eq!(60, candle.cost);

    trade1.timestamp = 61;
    trade1.price = 80;
    trade1.amount = 10;

    let c = match candle.update(&trade1) {
        Ok(_) => panic!("Should emit Err() with new handle"),
        Err(candle) => candle,
    };

    assert_eq!(80, c.open);
    assert_eq!(80, c.high);
    assert_eq!(80, c.low);
    assert_eq!(80, c.close);
    assert_eq!(10, c.cost);
}

#[test]
fn test_candle_align_timestamp() {
    assert_eq!(
        1618934400000,
        Candle::_align_timestamp(Resolution::Hour1, 1618936720000)
    );
    assert_eq!(
        1618938000000,
        Candle::_align_timestamp(Resolution::Hour1, 1618938005000)
    );

    assert_eq!(
        1618929960000,
        Candle::_align_timestamp(Resolution::Minute1, 1618929985000)
    );
}

#[test]
fn test_candle_sealing_leaves_old_candle() {
    // The trade past the upper edge seals the candle without touching it.
    let mut candle = Candle::new();

    let mut trade = Trade::new();
    trade.timestamp = 1;
    trade.price = 10;
    trade.amount = 10;
    candle.update(&trade).unwrap();

    let before = candle;
    trade.timestamp = 61;
    trade.price = 80;
    trade.amount = 10;
    assert!(candle.update(&trade).is_err());
    assert_eq!(before, candle);
}

#[test]
fn test_candle_prices_stay_ordered() {
    // low <= open, close <= high on the candle a seal would freeze.
    let mut trade = Trade::new();
    trade.timestamp = 1;
    trade.price = 40;
    trade.amount = 1;
    let mut candle = Candle::create(&trade, &Resolution::Minute1);

    let prices: [u64; 5] = [10, 90, 30, 70, 20];
    for (k, p) in prices.iter().enumerate() {
        trade.timestamp = 2 + k as u64;
        trade.price = *p;
        candle.update(&trade).unwrap();
    }

    assert!(candle.low <= candle.open && candle.open <= candle.high);
    assert!(candle.low <= candle.close && candle.close <= candle.high);
    assert_eq!(10, candle.low);
    assert_eq!(90, candle.high);
    assert_eq!(40, candle.open);
    assert_eq!(20, candle.close);
}

#[test]
fn test_trade_log() {
    let trade_log = TradeLog::new();
    assert_eq!(0, trade_log.trade_log.len());
}

#[test]
fn test_trade_log_charts() {
    let mut trade_log = TradeLog::new();
    assert_eq!(0, trade_log.observers.len());

    trade_log.trade_chart(Resolution::Minute1);
    trade_log.trade_chart(Resolution::Minute3);
    trade_log.trade_chart(Resolution::Minute5);
    trade_log.trade_chart(Resolution::Minute1);
    trade_log.trade_chart(Resolution::Minute3);
    trade_log.trade_chart(Resolution::Minute5);

    assert_eq!(3, trade_log.observers.len());
    assert_eq!(true, trade_log.has_chart(Resolution::Minute1));
    assert_eq!(true, trade_log.has_chart(Resolution::Minute3));
    assert_eq!(true, trade_log.has_chart(Resolution::Minute5));
    assert_eq!(false, trade_log.has_chart(Resolution::Minute15));
    assert_eq!(false, trade_log.has_chart(Resolution::Minute30));
}

#[test]
fn test_trade_log_new_trade() {
    let mut trade_log = TradeLog::new();

    let mut trade1 = Trade::new();
    trade1.timestamp = 1;
    trade1.price = 10;
    trade1.amount = 10;

    println!("new_trade1");
    trade_log.new_trade(&trade1);
    assert_eq!(0, trade_log.observers.len());

    trade_log.trade_chart(Resolution::Minute1);
    trade_log.trade_chart(Resolution::Minute3);
    trade_log.trade_chart(Resolution::Minute5);
    assert_eq!(3, trade_log.observers.len());

    println!("new_trade2");
    trade_log.new_trade(&trade1);
    assert_eq!(1, trade_log.chart(Resolution::Minute1).unwrap().len());
    assert_eq!(1, trade_log.chart(Resolution::Minute3).unwrap().len());
    assert_eq!(1, trade_log.chart(Resolution::Minute5).unwrap().len());

    let minute1_candle = trade_log
        .chart(Resolution::Minute1)
        .unwrap()
        .last()
        .unwrap();

    assert_eq!(10, minute1_candle.open);
    assert_eq!(10, minute1_candle.high);
    assert_eq!(10, minute1_candle.low);
    assert_eq!(10, minute1_candle.close);

    trade1.timestamp = 100;
    trade1.price = 70;
    trade1.amount = 10;

    println!("new_trade3");
    trade_log.new_trade(&trade1);

    println!("{:?}", trade_log.observers);
    assert_eq!(2, trade_log.chart(Resolution::Minute1).unwrap().len());
    assert_eq!(1, trade_log.chart(Resolution::Minute3).unwrap().len());
    assert_eq!(1, trade_log.chart(Resolution::Minute5).unwrap().len());
}

#[test]
fn test_trade_chart_returns_same_chart() {
    // Registering a resolution twice hands back the same chart state.
    let mut trade_log = TradeLog::new();

    let mut trade = Trade::new();
    trade.timestamp = 5;
    trade.price = 25;
    trade.amount = 2;

    trade_log.trade_chart(Resolution::Hour1);
    trade_log.new_trade(&trade);

    let first: Vec<Candle> = trade_log.trade_chart(Resolution::Hour1).clone();
    let second: Vec<Candle> = trade_log.trade_chart(Resolution::Hour1).clone();
    assert_eq!(first, second);
    assert_eq!(1, first.len());
    assert_eq!(1, trade_log.observers.len());
}

#[test]
fn test_candle_bucketing_per_resolution() {
    // Each chart buckets by its own resolution: one trade, three widths.
    let mut trade_log = TradeLog::new();
    trade_log.trade_chart(Resolution::Minute1);
    trade_log.trade_chart(Resolution::Hour1);
    trade_log.trade_chart(Resolution::Day1);

    let mut trade = Trade::new();
    trade.timestamp = 1618936720000;
    trade.price = 500;
    trade.amount = 1;
    trade_log.new_trade(&trade);

    let minute = trade_log.chart(Resolution::Minute1).unwrap().last().unwrap();
    assert_eq!(1618936720000 / 60000 * 60000, minute.start_timestamp);
    assert_eq!(60, minute.duration);

    let hour = trade_log.chart(Resolution::Hour1).unwrap().last().unwrap();
    assert_eq!(1618934400000, hour.start_timestamp);
    assert_eq!(3600, hour.duration);

    let day = trade_log.chart(Resolution::Day1).unwrap().last().unwrap();
    assert_eq!(1618876800000, day.start_timestamp);
    assert_eq!(86400, day.duration);
}
