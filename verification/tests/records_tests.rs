//! Tests for the record buffer and the batch averaging step.

use tui_tiling::records::{CsiData, Dataloader};

fn record(mac: &str, rssi: i32, noise: i32, timestamp: u64, samples: Vec<i32>) -> CsiData {
    CsiData {
        mac: mac.to_owned(),
        rssi,
        rate: 11,
        noise_floor: noise,
        channel: 6,
        timestamp,
        sig_len: 100,
        rx_state: 0,
        secondary_channel: 1,
        sgi: 0,
        ant: 0,
        ampdu_cnt: 0,
        sig_mode: 1,
        mcs: 7,
        cwb: 0,
        smoothing: 1,
        not_sounding: 0,
        aggregation: 0,
        stbc: 0,
        fec_coding: 0,
        sig_len_extra: 0,
        data_length: 64,
        csi_raw_data: samples,
    }
}

#[test]
fn dataloader_queues_and_drains_in_order() {
    let mut dl = Dataloader::new();
    assert!(dl.queue.is_empty());
    assert!(dl.history.is_empty());
    dl.push_data_packet(record("aa", -40, -95, 1, vec![1, 2]));
    dl.push_data_packet(record("bb", -50, -95, 2, vec![3, 4]));
    assert_eq!(dl.queue.len(), 2);
    assert_eq!(dl.history.len(), 2);
    let batch = dl.drain_buffer();
    assert_eq!(batch.len(), 2);
    assert_eq!(batch[0].mac, "aa");
    assert_eq!(batch[0].timestamp, 1);
    assert_eq!(batch[1].mac, "bb");
    assert_eq!(batch[1].timestamp, 2);
    // Draining empties the queue but keeps the history.
    assert!(dl.queue.is_empty());
    assert_eq!(dl.history.len(), 2);
    assert!(dl.drain_buffer().is_empty());
}

#[test]
fn history_keeps_a_faithful_copy() {
    let mut dl = Dataloader::new();
    dl.push_data_packet(record("cc", -33, -90, 7, vec![9, -9, 3]));
    let _ = dl.drain_buffer();
    assert_eq!(dl.history[0].mac, "cc");
    assert_eq!(dl.history[0].rssi, -33);
    assert_eq!(dl.history[0].csi_raw_data, vec![9, -9, 3]);
}

#[test]
fn average_of_two_records() {
    let batch = vec![
        record("aa", -10, -96, 100, vec![10, -7, 0]),
        record("bb", -21, -90, 200, vec![20, -8, 5]),
    ];
    let avg = CsiData::average(&batch);
    // (-10 + -21) / 2 truncates toward zero: -15, not -16.
    assert_eq!(avg.rssi, -15);
    assert_eq!(avg.noise_floor, -93);
    // Metadata comes from the most recent record.
    assert_eq!(avg.mac, "bb");
    assert_eq!(avg.timestamp, 200);
    // Samples average element by element: [15, -7, 2].
    assert_eq!(avg.csi_raw_data, vec![15, -7, 2]);
}

#[test]
fn average_width_follows_first_record() {
    let batch = vec![
        record("aa", -30, -90, 1, vec![4, 4, 4, 4]),
        record("bb", -30, -90, 2, vec![8, 8]),
    ];
    let avg = CsiData::average(&batch);
    // The first record fixes the width; a shorter record contributes
    // nothing to the samples it lacks.
    assert_eq!(avg.csi_raw_data, vec![6, 6, 2, 2]);
}

#[test]
fn average_of_empty_batch_is_all_zero() {
    let avg = CsiData::average(&[]);
    assert_eq!(avg.mac, "");
    assert_eq!(avg.rssi, 0);
    assert_eq!(avg.noise_floor, 0);
    assert_eq!(avg.timestamp, 0);
    assert!(avg.csi_raw_data.is_empty());
}

#[test]
fn average_of_single_record_is_itself() {
    let batch = vec![record("dd", -57, -91, 5, vec![1, 2, 3])];
    let avg = CsiData::average(&batch);
    assert_eq!(avg.rssi, -57);
    assert_eq!(avg.noise_floor, -91);
    assert_eq!(avg.csi_raw_data, vec![1, 2, 3]);
    assert_eq!(avg.mac, "dd");
}
