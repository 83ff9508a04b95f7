use wallet_policy::coins::{Coin, OutPoint, remaining_sequence, select_order};
use wallet_policy::spend::{
    ChooseCoins, ChooseRecipients, Config, Recipient, SaveSpend, TransactionDraft, TxOut,
    UnsignedTx,
};
use wallet_policy::types::Network;

// A valid mainnet pay-to-witness-pubkey-hash address.
const MAIN_ADDR: &str = "bc1qar0srrr7xfkvy5l643lydnw9re59gtzzwf5mdq";
// Another valid mainnet address.
const MAIN_ADDR_2: &str = "bc1qw508d6qejxtdg4y5r3zarvary0c5xw7kv8f3t4";

fn coin(n: u8, amount: u64, height: Option<u32>, committed: bool) -> Coin {
    Coin { outpoint: OutPoint { txid: [n; 32], vout: 0 }, amount, block_height: height, committed }
}

#[test]
fn remaining_sequence_counts_blocks() {
    // Confirmed at 100 with a 10-block lock: at the tip 105, five remain.
    assert_eq!(remaining_sequence(Some(100), 105, 10), 5);
    // Past the lock, nothing remains.
    assert_eq!(remaining_sequence(Some(100), 200, 10), 0);
    // Unconfirmed: the whole lock and one block more.
    assert_eq!(remaining_sequence(None, 105, 10), 11);
}

#[test]
fn coin_ordering_is_urgency_then_amount_and_idempotent() {
    let coins = vec![
        coin(1, 500, Some(50), false),   // 60 blocks remain
        coin(2, 900, Some(10), false),   // 20 blocks remain
        coin(3, 100, Some(10), false),   // 20 blocks remain, smaller
        coin(4, 999, Some(5), true),     // committed: excluded
        coin(5, 700, None, false),       // unconfirmed: least urgent
    ];
    let tip = 0u32;
    let timelock = 10u16;
    // remaining: c1: 50+10-0=60, c2/c3: 20, c5: 11.
    let ordered = select_order(&coins, tip, timelock);
    let ids: Vec<u8> = ordered.iter().map(|c| c.outpoint.txid[0]).collect();
    assert_eq!(ids, vec![5, 2, 3, 1]);
    assert!(ordered.iter().all(|c| !c.committed));
    // Ordering an already ordered list changes nothing.
    let again = select_order(&ordered, tip, timelock);
    let ids2: Vec<u8> = again.iter().map(|c| c.outpoint.txid[0]).collect();
    assert_eq!(ids, ids2);
}

#[test]
fn recipient_validation_accepts_good_entries() {
    let mut rc = Recipient::new();
    assert!(!rc.valid());
    rc.set_address(MAIN_ADDR.to_string(), Network::Bitcoin);
    rc.set_amount("0.0005".to_string(), Network::Bitcoin);
    assert!(rc.valid());
    assert_eq!(rc.amount_sats(Network::Bitcoin), Some(50_000));
}

#[test]
fn recipient_validation_rejects_bad_entries() {
    let mut rc = Recipient::new();
    // A wrong-network or malformed address marks the entry invalid.
    rc.set_address("not an address".to_string(), Network::Bitcoin);
    assert!(!rc.address.valid);
    rc.set_address(MAIN_ADDR.to_string(), Network::Testnet);
    assert!(!rc.address.valid);
    // Blanking the entry clears the error.
    rc.set_address(String::new(), Network::Bitcoin);
    assert!(rc.address.valid);

    // A zero amount is refused.
    rc.set_address(MAIN_ADDR.to_string(), Network::Bitcoin);
    rc.set_amount("0".to_string(), Network::Bitcoin);
    assert!(!rc.amount.valid);
    // An amount at or below the script's dust value is refused.
    rc.set_amount("0.00000100".to_string(), Network::Bitcoin);
    assert!(!rc.amount.valid);
    // Unparseable text is refused.
    rc.set_amount("pennies".to_string(), Network::Bitcoin);
    assert!(!rc.amount.valid);
}

#[test]
fn apply_builds_unique_outputs_last_wins() {
    let mut step = ChooseRecipients::new();
    step.recipients[0].set_address(MAIN_ADDR.to_string(), Network::Bitcoin);
    step.recipients[0].set_amount("0.0005".to_string(), Network::Bitcoin);
    step.add_recipient();
    step.recipients[1].set_address(MAIN_ADDR_2.to_string(), Network::Bitcoin);
    step.recipients[1].set_amount("0.001".to_string(), Network::Bitcoin);
    step.add_recipient();
    // The same address again: the later amount wins, no duplicate key.
    step.recipients[2].set_address(MAIN_ADDR.to_string(), Network::Bitcoin);
    step.recipients[2].set_amount("0.002".to_string(), Network::Bitcoin);

    let mut draft = TransactionDraft::new();
    assert!(step.apply(&mut draft, Network::Bitcoin));
    assert_eq!(draft.outputs.len(), 2);
    assert_eq!(draft.outputs[0].address, MAIN_ADDR);
    assert_eq!(draft.outputs[0].amount, 200_000);
    assert_eq!(draft.outputs[1].address, MAIN_ADDR_2);
    assert_eq!(draft.outputs[1].amount, 100_000);

    // An unresolvable recipient fails the step and leaves the draft alone.
    step.recipients[1].set_address("broken".to_string(), Network::Bitcoin);
    let before = draft.outputs.len();
    assert!(!step.apply(&mut draft, Network::Bitcoin));
    assert_eq!(draft.outputs.len(), before);
}

fn draft_with_one_recipient() -> TransactionDraft {
    let mut step = ChooseRecipients::new();
    step.recipients[0].set_address(MAIN_ADDR.to_string(), Network::Bitcoin);
    step.recipients[0].set_amount("0.0005".to_string(), Network::Bitcoin);
    let mut draft = TransactionDraft::new();
    assert!(step.apply(&mut draft, Network::Bitcoin));
    draft
}

#[test]
fn zero_feerate_shortfall_is_the_recipient_amount() {
    // Fee rate "0": the size estimate contributes nothing, so the
    // shortfall is exactly the 50,000 satoshis of the one recipient.
    let draft = draft_with_one_recipient();
    let mut cc = ChooseCoins::new(&vec![], 0, 0);
    cc.load(&draft);
    cc.set_feerate("0".to_string());
    assert_eq!(cc.amount_left_to_select, Some(50_000));
}

#[test]
fn non_numeric_feerate_gives_no_shortfall() {
    let draft = draft_with_one_recipient();
    let mut cc = ChooseCoins::new(&vec![], 0, 0);
    cc.load(&draft);
    cc.set_feerate("sats".to_string());
    assert_eq!(cc.amount_left_to_select, None);
    assert!(!cc.feerate.valid);
    cc.set_feerate(String::new());
    assert_eq!(cc.amount_left_to_select, None);
    assert!(cc.feerate.valid);
}

#[test]
fn selecting_coins_shrinks_shortfall_to_zero() {
    let draft = draft_with_one_recipient();
    let coins = vec![coin(1, 40_000, Some(10), false), coin(2, 30_000, Some(10), false)];
    let mut cc = ChooseCoins::new(&coins, 10, 100);
    cc.load(&draft);
    cc.set_feerate("1".to_string());
    // No coin selected: outputs (8 + 22 bytes script) + change 42 +
    // overhead 11 = 83 bytes at 1 sat/byte, plus the 50,000 to send.
    assert_eq!(cc.amount_left_to_select, Some(50_083));
    cc.toggle_coin(0);
    // One 50-byte input more, 40,000 satoshis covered.
    let after_one = cc.amount_left_to_select.unwrap();
    assert_eq!(after_one, 50_133 - 40_000);
    assert!(after_one <= 50_083);
    cc.toggle_coin(1);
    // Both coins cover everything: the shortfall is exactly zero.
    assert_eq!(cc.amount_left_to_select, Some(0));
    // Untoggling brings it back.
    cc.toggle_coin(1);
    assert_eq!(cc.amount_left_to_select, Some(after_one));
}

#[test]
fn generate_request_and_result_handling() {
    let draft = draft_with_one_recipient();
    let coins = vec![coin(1, 100_000, Some(10), false)];
    let mut cc = ChooseCoins::new(&coins, 10, 100);
    cc.load(&draft);
    cc.set_feerate("2".to_string());
    cc.toggle_coin(0);
    let (inputs, feerate) = cc.generate_request();
    assert_eq!(inputs.len(), 1);
    assert_eq!(inputs[0].txid, [1u8; 32]);
    assert_eq!(feerate, 2);

    // A failure is surfaced and keeps the draft state.
    cc.construction_result(Err("insufficient funds".to_string()));
    assert_eq!(cc.warning.as_deref(), Some("insufficient funds"));
    assert!(cc.generated.is_none());

    // A success stores the transaction and clears the error.
    let tx = UnsignedTx {
        inputs: inputs.clone(),
        outputs: vec![
            TxOut { script: draft.outputs[0].script.clone(), value: 50_000 },
            TxOut { script: vec![0x51], value: 49_000 },
        ],
    };
    cc.construction_result(Ok(tx));
    assert!(cc.warning.is_none());
    assert!(cc.generated.is_some());

    let mut draft2 = draft;
    cc.apply(&mut draft2);
    assert_eq!(draft2.inputs.len(), 1);
    assert!(draft2.generated.is_some());

    // The review step points at the change output: the one output paying
    // no recipient's script.
    let mut save = SaveSpend::new(Config { network: Network::Bitcoin });
    save.load(&draft2);
    let review = save.spend.as_ref().unwrap();
    assert_eq!(review.change_index, Some(1));
    assert_eq!(review.inputs.len(), 1);
}
